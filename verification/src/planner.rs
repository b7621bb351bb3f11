//! Transitions, plan replay, lifted candidate generation, and shortest-plan search.
use vstd::prelude::*;

use crate::logic::{
    action_ok, atom_ok, binding_scope, env_view, eval, ground, holds, lemma_lookup_same_names,
    object_ok, same_names, task_valid, validate, Env, lookup, term_value, formula_ok,
};
use crate::model::{Action, Atom, AtomV, Error, ErrorKind, Formula, GroundAction, GroundAtom,
    Plan, SearchLimits, SearchOutcome, State, Task, Term};
use crate::text::{concat3, concat5, decimal_string, is_object_type};

verus! {

// ----------------------------------------------------------------------------------------------
// Transition semantics
// ----------------------------------------------------------------------------------------------

/// The bindings of an action's parameters to the given objects.
pub open spec fn action_env(schema: Action, args: Seq<Seq<char>>) -> Env {
    Seq::new(schema.parameters@.len(), |i: int| (schema.parameters@[i].name@, args[i]))
}

/// Whether the arguments are declared objects of the parameters' types.
pub open spec fn args_ok(task: Task, schema: Action, args: Seq<Seq<char>>) -> bool {
    &&& args.len() == schema.parameters@.len()
    &&& forall|i: int| 0 <= i < args.len() ==> object_ok(task.objects@, #[trigger] args[i], Some(schema.parameters@[i].ty@))
}

/// Whether the action instance is well-typed and its precondition holds in the state.
pub open spec fn applicable(task: Task, st: Set<AtomV>, schema: Action, args: Seq<Seq<char>>) -> bool {
    args_ok(task, schema, args) && holds(task.objects@, st, schema.precondition, action_env(schema, args))
}

/// The ground atoms an action instance adds.
pub open spec fn added(schema: Action, args: Seq<Seq<char>>) -> Set<AtomV> {
    Set::new(|x: AtomV| exists|j: int| 0 <= j < schema.add@.len() && ground(#[trigger] schema.add@[j], action_env(schema, args)) == x)
}

/// The ground atoms an action instance deletes.
pub open spec fn deleted(schema: Action, args: Seq<Seq<char>>) -> Set<AtomV> {
    Set::new(|x: AtomV| exists|j: int| 0 <= j < schema.delete@.len() && ground(#[trigger] schema.delete@[j], action_env(schema, args)) == x)
}

/// The state after an action instance: deletions first, then additions, so an atom both
/// added and deleted ends up true; every other atom keeps its value.
pub open spec fn successor(st: Set<AtomV>, schema: Action, args: Seq<Seq<char>>) -> Set<AtomV> {
    st.difference(deleted(schema, args)).union(added(schema, args))
}

/// The effect rule: an added atom is true afterwards even if it is also deleted; a deleted
/// atom that is not added is false; every other atom keeps its value.
pub proof fn law_effects(st: Set<AtomV>, schema: Action, args: Seq<Seq<char>>, x: AtomV)
    ensures
        added(schema, args).contains(x) ==> successor(st, schema, args).contains(x),
        deleted(schema, args).contains(x) && !added(schema, args).contains(x) ==> !successor(st, schema, args).contains(x),
        !deleted(schema, args).contains(x) && !added(schema, args).contains(x) ==> (successor(st, schema, args).contains(x)
            == st.contains(x)),
{
}

/// Whether some action schema carries this name.
pub open spec fn names_schema(task: Task, name: Seq<char>) -> bool {
    exists|k: int| 0 <= k < task.actions@.len() && (#[trigger] task.actions@[k]).name@ == name
}

/// The index of the action schema carrying this name.
pub open spec fn schema_of(task: Task, name: Seq<char>) -> int {
    choose|k: int| 0 <= k < task.actions@.len() && (#[trigger] task.actions@[k]).name@ == name
}

/// Whether a ground action names a schema and is applicable in the state.
pub open spec fn step_ok(task: Task, st: Set<AtomV>, g: GroundAction) -> bool {
    names_schema(task, g.name@) && applicable(task, st, task.actions@[schema_of(task, g.name@)], g.arguments.deep_view())
}

/// The state after a ground action.
pub open spec fn step_result(task: Task, st: Set<AtomV>, g: GroundAction) -> Set<AtomV> {
    successor(st, task.actions@[schema_of(task, g.name@)], g.arguments.deep_view())
}

/// The state reached by executing `steps` from `st`, if every step is applicable.
pub open spec fn run(task: Task, st: Set<AtomV>, steps: Seq<GroundAction>) -> Option<Set<AtomV>>
    decreases steps.len(),
{
    if steps.len() == 0 {
        Some(st)
    } else {
        match run(task, st, steps.drop_last()) {
            Some(s) => if step_ok(task, s, steps.last()) {
                Some(step_result(task, s, steps.last()))
            } else {
                None
            },
            None => None,
        }
    }
}

/// The state reached by executing `steps` from the initial state.
pub open spec fn replayed(task: Task, steps: Seq<GroundAction>) -> Option<Set<AtomV>> {
    run(task, task.initial@, steps)
}

/// Whether `steps` are applicable in turn from the initial state and reach a goal state.
pub open spec fn is_plan(task: Task, steps: Seq<GroundAction>) -> bool {
    replayed(task, steps) matches Some(s) && holds(task.objects@, s, task.goal, Seq::empty())
}

// ----------------------------------------------------------------------------------------------
// Lemmas
// ----------------------------------------------------------------------------------------------

/// With distinct action names, the schema of a name is the one that carries it.
pub proof fn lemma_schema_of(task: Task, k: int)
    requires
        task_valid(task),
        0 <= k < task.actions@.len(),
    ensures
        names_schema(task, task.actions@[k].name@),
        schema_of(task, task.actions@[k].name@) == k,
{
    let name = task.actions@[k].name@;
    assert(task.actions@[k].name@ == name);
    let j = schema_of(task, name);
    if j != k {
        if j < k {
            assert(task.actions@[j].name@ != task.actions@[k].name@);
        } else {
            assert(task.actions@[k].name@ != task.actions@[j].name@);
        }
    }
}

/// Running a sequence extended by one step.
pub proof fn lemma_run_push(task: Task, st: Set<AtomV>, steps: Seq<GroundAction>, g: GroundAction)
    ensures
        run(task, st, steps.push(g)) == match run(task, st, steps) {
            Some(s) => if step_ok(task, s, g) { Some(step_result(task, s, g)) } else { None },
            None => None,
        },
{
    assert(steps.push(g).drop_last() =~= steps);
}

/// Running a concatenation runs its parts in turn: the second part starts where the first
/// ends, and nothing runs past a step that cannot be taken.
pub proof fn law_run_concatenation(task: Task, st: Set<AtomV>, a: Seq<GroundAction>, b: Seq<GroundAction>)
    ensures
        run(task, st, a + b) == match run(task, st, a) {
            Some(s) => run(task, s, b),
            None => None,
        },
    decreases b.len(),
{
    if b.len() == 0 {
        assert(a + b =~= a);
    } else {
        law_run_concatenation(task, st, a, b.drop_last());
        assert((a + b).drop_last() =~= a + b.drop_last());
        assert((a + b).last() == b.last());
    }
}


// ----------------------------------------------------------------------------------------------
// Transitions
// ----------------------------------------------------------------------------------------------

/// The executable bindings of an action's parameters to its arguments.
pub(crate) fn action_environment(schema: &Action, arguments: &Vec<String>) -> (env: Vec<(String, String)>)
    requires
        arguments@.len() == schema.parameters@.len(),
    ensures
        env_view(env@) == action_env(*schema, arguments.deep_view()),
{
    let mut env: Vec<(String, String)> = Vec::new();
    let mut i: usize = 0;
    while i < schema.parameters.len()
        invariant
            i <= schema.parameters@.len(),
            arguments@.len() == schema.parameters@.len(),
            env@.len() == i,
            forall|j: int| 0 <= j < i ==> (#[trigger] env@[j]).0@ == schema.parameters@[j].name@ && env@[j].1@ == arguments@[j]@,
        decreases schema.parameters.len() - i,
    {
        env.push((schema.parameters[i].name.clone(), arguments[i].clone()));
        i = i + 1;
    }
    assert(env_view(env@) =~= action_env(*schema, arguments.deep_view()));
    env
}

/// Whether argument `j` is no declared object of its parameter's type.
pub open spec fn bad_argument(task: Task, schema: Action, args: Seq<Seq<char>>, j: int) -> bool {
    0 <= j < args.len() && !object_ok(task.objects@, args[j], Some(schema.parameters@[j].ty@))
}

/// The first argument that is no declared object of its parameter's type.
pub open spec fn first_bad_argument(task: Task, schema: Action, args: Seq<Seq<char>>) -> int {
    choose|j: int| bad_argument(task, schema, args, j) && forall|j2: int| 0 <= j2 < j ==> !bad_argument(task, schema, args, j2)
}

/// Why the arguments do not fit the schema: a wrong count, an object of the wrong type, or an
/// unknown object, reported at the first argument that does not fit.
pub open spec fn arguments_message(task: Task, schema: Action, args: Seq<Seq<char>>) -> Seq<char> {
    if schema.parameters@.len() != args.len() {
        "action `"@ + schema.name@ + "` expects "@ + crate::text::decimal(schema.parameters@.len()) + " arguments, got "@
            + crate::text::decimal(args.len())
    } else {
        let j = first_bad_argument(task, schema, args);
        if exists|o: int| 0 <= o < task.objects@.len() && (#[trigger] task.objects@[o]).name@ == args[j] {
            "object `"@ + args[j] + "` does not have type `"@ + schema.parameters@[j].ty@ + "`"@
        } else {
            "unknown object `"@ + args[j] + "` in a step"@
        }
    }
}

/// Why step `i`, the ground action `g`, cannot be run in state `st`.
pub open spec fn step_message(task: Task, st: Set<AtomV>, g: GroundAction, i: int) -> Seq<char> {
    if !names_schema(task, g.name@) {
        "step "@ + crate::text::decimal((i + 1) as nat) + " names unknown action `"@ + g.name@ + "`"@
    } else if !args_ok(task, task.actions@[schema_of(task, g.name@)], g.arguments.deep_view()) {
        arguments_message(task, task.actions@[schema_of(task, g.name@)], g.arguments.deep_view())
    } else {
        "action `"@ + crate::model::show_ground_action(g) + "` is not applicable at step "@ + crate::text::decimal((i + 1) as nat)
    }
}

/// Whether the run of `steps` first fails at step `i`, reporting `message`.
pub open spec fn fails_at(task: Task, steps: Seq<GroundAction>, i: int, message: Seq<char>) -> bool {
    &&& 0 <= i < steps.len()
    &&& replayed(task, steps.take(i)) is Some
    &&& replayed(task, steps.take(i + 1)) is None
    &&& message == step_message(task, replayed(task, steps.take(i))->0, steps[i], i)
}

/// A run fails at one step only, so the failure `replay` reports is determined by the steps.
pub proof fn law_failure_is_unique(task: Task, steps: Seq<GroundAction>, i: int, m1: Seq<char>, j: int, m2: Seq<char>)
    requires
        fails_at(task, steps, i, m1),
        fails_at(task, steps, j, m2),
    ensures
        i == j,
        m1 == m2,
{
    if i < j {
        assert(steps.take(i + 1) == steps.take(j).take(i + 1));
        law_run_failure_persists(task, task.initial@, steps.take(i + 1), steps.take(j));
    } else if j < i {
        assert(steps.take(j + 1) == steps.take(i).take(j + 1));
        law_run_failure_persists(task, task.initial@, steps.take(j + 1), steps.take(i));
    }
}

/// The bindings of an action's parameters, after checking that the arguments are declared
/// objects of the parameters' types.
fn checked_action_environment(task: &Task, schema: &Action, ground: &GroundAction) -> (r: Result<Vec<(String, String)>, Error>)
    ensures
        r.is_ok() == args_ok(*task, *schema, ground.arguments.deep_view()),
        r matches Ok(env) ==> env_view(env@) == action_env(*schema, ground.arguments.deep_view()),
        r matches Err(e) ==> e.spec_kind() == ErrorKind::InvalidInput,
        r matches Err(e) ==> e.spec_message() == arguments_message(*task, *schema, ground.arguments.deep_view()),
{
    let ghost args = ground.arguments.deep_view();
    if schema.parameters.len() != ground.arguments.len() {
        let mut m = concat3("action `", schema.name.as_str(), "` expects ");
        m.append(decimal_string(schema.parameters.len()).as_str());
        m.append(" arguments, got ");
        m.append(decimal_string(ground.arguments.len()).as_str());
        proof {
            assert(m@ =~= arguments_message(*task, *schema, args));
        }
        return Err(Error::new(m));
    }
    let mut i: usize = 0;
    while i < schema.parameters.len()
        invariant
            i <= schema.parameters@.len(),
            ground.arguments@.len() == schema.parameters@.len(),
            args == ground.arguments.deep_view(),
            forall|j: int| 0 <= j < i ==> object_ok(task.objects@, #[trigger] args[j], Some(schema.parameters@[j].ty@)),
        decreases schema.parameters.len() - i,
    {
        let parameter = &schema.parameters[i];
        let argument = &ground.arguments[i];
        let mut found = false;
        let mut good = false;
        let mut k: usize = 0;
        while k < task.objects.len()
            invariant_except_break
                !good,
                found <==> exists|o: int| 0 <= o < k && (#[trigger] task.objects@[o]).name@ == argument@,
            invariant
                k <= task.objects@.len(),
                forall|j: int| 0 <= j < k && (#[trigger] task.objects@[j]).name@ == argument@ ==> !(
                    parameter.ty@ == "object"@ || task.objects@[j].ty@ == parameter.ty@),
            ensures
                !good ==> k == task.objects@.len(),
                !good ==> (found <==> exists|o: int| 0 <= o < task.objects@.len() && (#[trigger] task.objects@[o]).name@ == argument@),
                good ==> object_ok(task.objects@, argument@, Some(parameter.ty@)),
            decreases task.objects.len() - k,
        {
            let object = &task.objects[k];
            proof {
                if object.name@ == argument@ {
                    assert(task.objects@[k as int].name@ == argument@);
                }
            }
            if object.name == *argument {
                found = true;
                if is_object_type(&parameter.ty) || object.ty == parameter.ty {
                    good = true;
                    proof {
                        assert(task.objects@[k as int].name@ == argument@);
                    }
                    break;
                }
            }
            k = k + 1;
        }
        if !good {
            proof {
                assert(args[i as int] == argument@);
                assert(!object_ok(task.objects@, args[i as int], Some(schema.parameters@[i as int].ty@)));
            }
            proof {
                assert(bad_argument(*task, *schema, args, i as int));
                let j = first_bad_argument(*task, *schema, args);
                assert(bad_argument(*task, *schema, args, j));
                if j < i {
                    assert(object_ok(task.objects@, args[j], Some(schema.parameters@[j].ty@)));
                } else if j > i {
                }
                assert(j == i);
            }
            if found {
                let e = Error::new(concat5("object `", argument.as_str(), "` does not have type `", parameter.ty.as_str(), "`"));
                proof {
                    assert(e.spec_message() =~= arguments_message(*task, *schema, args));
                }
                return Err(e);
            } else {
                let e = Error::new(concat3("unknown object `", argument.as_str(), "` in a step"));
                proof {
                    assert(e.spec_message() =~= arguments_message(*task, *schema, args));
                }
                return Err(e);
            }
        }
        proof {
            assert(args[i as int] == argument@);
        }
        i = i + 1;
    }
    Ok(action_environment(schema, &ground.arguments))
}

/// Whether every variable of `a` is bound in `env`.
pub open spec fn atom_bound(a: Atom, env: Env) -> bool {
    forall|i: int| 0 <= i < a.terms@.len() ==> (#[trigger] a.terms@[i] matches Term::Variable(n) ==> lookup(env, n@) is Some)
}

/// Whether every variable of every effect of `schema` is bound in `env`.
pub open spec fn effects_bound(schema: Action, env: Env) -> bool {
    &&& forall|j: int| 0 <= j < schema.delete@.len() ==> atom_bound(#[trigger] schema.delete@[j], env)
    &&& forall|j: int| 0 <= j < schema.add@.len() ==> atom_bound(#[trigger] schema.add@[j], env)
}

/// The effects of a well-formed schema use only its parameters.
proof fn lemma_effects_bound(task: Task, schema: Action, args: Seq<Seq<char>>)
    requires
        action_ok(task, schema),
        args.len() == schema.parameters@.len(),
    ensures
        effects_bound(schema, action_env(schema, args)),
{
    let aenv = action_env(schema, args);
    let scope = binding_scope(schema.parameters@);
    assert(same_names(aenv, scope));
    assert forall|j: int| 0 <= j < schema.delete@.len() implies atom_bound(#[trigger] schema.delete@[j], aenv) by {
        crate::logic::lemma_atom_bound(task, schema.delete@[j], scope, aenv);
    }
    assert forall|j: int| 0 <= j < schema.add@.len() implies atom_bound(#[trigger] schema.add@[j], aenv) by {
        crate::logic::lemma_atom_bound(task, schema.add@[j], scope, aenv);
    }
}

/// The first variable of an atom in `atoms` that `env` leaves unbound, if any.
fn unbound_variable(atoms: &Vec<Atom>, env: &Vec<(String, String)>) -> (r: Option<String>)
    ensures
        r is None <==> forall|j: int| 0 <= j < atoms@.len() ==> atom_bound(#[trigger] atoms@[j], env_view(env@)),
{
    let mut j: usize = 0;
    while j < atoms.len()
        invariant
            j <= atoms@.len(),
            forall|j2: int| 0 <= j2 < j ==> atom_bound(#[trigger] atoms@[j2], env_view(env@)),
        decreases atoms.len() - j,
    {
        let a = &atoms[j];
        let mut i: usize = 0;
        while i < a.terms.len()
            invariant
                j < atoms@.len(),
                *a == atoms@[j as int],
                i <= a.terms@.len(),
                forall|i2: int| 0 <= i2 < i ==> (#[trigger] a.terms@[i2] matches Term::Variable(n) ==> lookup(env_view(env@), n@) is Some),
            decreases a.terms.len() - i,
        {
            if let Term::Variable(n) = &a.terms[i] {
                if crate::logic::lookup_exec(env, n).is_none() {
                    proof {
                        assert(a.terms@[i as int] matches Term::Variable(n2) && lookup(env_view(env@), n2@) is None);
                        assert(!atom_bound(atoms@[j as int], env_view(env@)));
                    }
                    return Some(n.clone());
                }
            }
            i = i + 1;
        }
        j = j + 1;
    }
    None
}

/// The state after an action instance: deletions first, then additions. Fails when an effect
/// uses a variable that is not a parameter.
fn apply(task: &Task, schema: &Action, arguments: &Vec<String>, state: &State) -> (r: Result<State, Error>)
    requires
        arguments@.len() == schema.parameters@.len(),
    ensures
        r is Ok <==> effects_bound(*schema, action_env(*schema, arguments.deep_view())),
        r matches Ok(next) ==> next@ == successor(state@, *schema, arguments.deep_view()),
        r matches Err(e) ==> e.spec_kind() == ErrorKind::InvalidInput,
{
    let ghost args = arguments.deep_view();
    let ghost aenv = action_env(*schema, args);
    let env = action_environment(schema, arguments);
    if let Some(n) = unbound_variable(&schema.delete, &env) {
        return Err(Error::new(concat3("unbound effect variable `?", n.as_str(), "`")));
    }
    if let Some(n) = unbound_variable(&schema.add, &env) {
        return Err(Error::new(concat3("unbound effect variable `?", n.as_str(), "`")));
    }
    let mut next = state.copy();
    let mut i: usize = 0;
    while i < schema.delete.len()
        invariant
            i <= schema.delete@.len(),
            env_view(env@) == aenv,
            aenv == action_env(*schema, args),
            effects_bound(*schema, aenv),
            next@ == state@.difference(Set::new(|x: AtomV| exists|j: int| 0 <= j < i && ground(#[trigger] schema.delete@[j], aenv) == x)),
        decreases schema.delete.len() - i,
    {
        proof {
            assert(atom_bound(schema.delete@[i as int], aenv));
        }
        let atom = crate::logic::ground_atom(&schema.delete[i], &env);
        let ghost before = next@;
        next.remove(&atom);
        proof {
            let d1 = Set::new(|x: AtomV| exists|j: int| 0 <= j < i + 1 && ground(#[trigger] schema.delete@[j], aenv) == x);
            let d0 = Set::new(|x: AtomV| exists|j: int| 0 <= j < i && ground(#[trigger] schema.delete@[j], aenv) == x);
            assert forall|x: AtomV| d1.contains(x) <==> d0.contains(x) || x == atom@ by {
                if d1.contains(x) {
                    let j = choose|j: int| 0 <= j < i + 1 && ground(#[trigger] schema.delete@[j], aenv) == x;
                    if j < i {
                        assert(d0.contains(x));
                    }
                }
                if x == atom@ {
                    assert(ground(schema.delete@[i as int], aenv) == x);
                }
                if d0.contains(x) {
                    let j = choose|j: int| 0 <= j < i && ground(#[trigger] schema.delete@[j], aenv) == x;
                    assert(d1.contains(x));
                }
            }
            assert(next@ =~= state@.difference(d1));
        }
        i = i + 1;
    }
    proof {
        assert(next@ =~= state@.difference(deleted(*schema, args)));
    }
    let ghost base = next@;
    let mut i: usize = 0;
    while i < schema.add.len()
        invariant
            i <= schema.add@.len(),
            env_view(env@) == aenv,
            aenv == action_env(*schema, args),
            effects_bound(*schema, aenv),
            next@ == base.union(Set::new(|x: AtomV| exists|j: int| 0 <= j < i && ground(#[trigger] schema.add@[j], aenv) == x)),
        decreases schema.add.len() - i,
    {
        proof {
            assert(atom_bound(schema.add@[i as int], aenv));
        }
        let atom = crate::logic::ground_atom(&schema.add[i], &env);
        next.insert(atom);
        proof {
            let a1 = Set::new(|x: AtomV| exists|j: int| 0 <= j < i + 1 && ground(#[trigger] schema.add@[j], aenv) == x);
            let a0 = Set::new(|x: AtomV| exists|j: int| 0 <= j < i && ground(#[trigger] schema.add@[j], aenv) == x);
            assert forall|x: AtomV| a1.contains(x) <==> a0.contains(x) || x == ground(schema.add@[i as int], aenv) by {
                if a1.contains(x) {
                    let j = choose|j: int| 0 <= j < i + 1 && ground(#[trigger] schema.add@[j], aenv) == x;
                    if j < i {
                        assert(a0.contains(x));
                    }
                }
                if a0.contains(x) {
                    let j = choose|j: int| 0 <= j < i && ground(#[trigger] schema.add@[j], aenv) == x;
                    assert(a1.contains(x));
                }
            }
            assert(next@ =~= base.union(a1));
        }
        i = i + 1;
    }
    proof {
        assert(next@ =~= successor(state@, *schema, args));
    }
    Ok(next)
}

/// Replays ground actions from the initial state, rejecting inapplicable steps.
///
/// Succeeds exactly when the task is valid and every step names an action schema, supplies
/// declared objects of the parameters' types, and meets the precondition in the state it is
/// applied to; the result is then the state reached.
pub fn replay(task: &Task, steps: &[GroundAction]) -> (r: Result<State, Error>)
    ensures
        r.is_ok() == (task_valid(*task) && replayed(*task, steps@) is Some),
        r matches Ok(st) ==> replayed(*task, steps@) == Some(st@),
        r matches Err(e) ==> e.spec_kind() == ErrorKind::InvalidInput,
        !task_valid(*task) ==> (r matches Err(e) && crate::logic::validation_error(*task) == Some(e.spec_message())),
        r matches Err(e) ==> (task_valid(*task) ==> exists|i: int| #[trigger] fails_at(*task, steps@, i, e.spec_message())),
{
    match validate(task) {
        Ok(()) => {},
        Err(e) => return Err(e),
    }
    let mut state = task.initial.copy();
    let mut i: usize = 0;
    proof {
        assert(steps@.take(0) =~= Seq::<GroundAction>::empty());
    }
    while i < steps.len()
        invariant
            i <= steps@.len(),
            task_valid(*task),
            replayed(*task, steps@.take(i as int)) == Some(state@),
        decreases steps.len() - i,
    {
        let ground = &steps[i];
        proof {
            assert(steps@.take(i + 1) =~= steps@.take(i as int).push(steps@[i as int]));
            lemma_run_push(*task, task.initial@, steps@.take(i as int), steps@[i as int]);
        }
        let mut k: usize = 0;
        while k < task.actions.len()
            invariant
                k <= task.actions@.len(),
                forall|j: int| 0 <= j < k ==> (#[trigger] task.actions@[j]).name@ != ground.name@,
            ensures
                k <= task.actions@.len(),
                forall|j: int| 0 <= j < k ==> (#[trigger] task.actions@[j]).name@ != ground.name@,
                k < task.actions@.len() ==> task.actions@[k as int].name@ == ground.name@,
            decreases task.actions.len() - k,
        {
            if task.actions[k].name == ground.name {
                break;
            }
            k = k + 1;
        }
        if k == task.actions.len() {
            proof {
                assert(!names_schema(*task, ground.name@));
                assert(replayed(*task, steps@.take(i + 1)) is None);
                law_run_failure_persists(*task, task.initial@, steps@.take(i + 1), steps@);
            }
            let mut m = String::from_str("step ");
            m.append(decimal_string(i + 1).as_str());
            m.append(" names unknown action `");
            m.append(ground.name.as_str());
            m.append("`");
            proof {
                assert(m@ =~= step_message(*task, state@, steps@[i as int], i as int));
                assert(fails_at(*task, steps@, i as int, m@));
            }
            return Err(Error::new(m));
        }
        let schema = &task.actions[k];
        proof {
            lemma_schema_of(*task, k as int);
            assert(schema_of(*task, ground.name@) == k);
            assert(action_ok(*task, *schema));
        }
        let mut env = match checked_action_environment(task, schema, ground) {
            Ok(env) => env,
            Err(e) => {
                proof {
                    assert(replayed(*task, steps@.take(i + 1)) is None);
                    law_run_failure_persists(*task, task.initial@, steps@.take(i + 1), steps@);
                    assert(e.spec_message() == step_message(*task, state@, steps@[i as int], i as int));
                    assert(fails_at(*task, steps@, i as int, e.spec_message()));
                }
                return Err(e);
            }
        };
        proof {
            assert(same_names(env_view(env@), binding_scope(schema.parameters@)));
        }
        let ok = eval(task, &state, &schema.precondition, &mut env, Ghost(binding_scope(schema.parameters@)));
        if !ok {
            proof {
                assert(replayed(*task, steps@.take(i + 1)) is None);
                law_run_failure_persists(*task, task.initial@, steps@.take(i + 1), steps@);
            }
            let mut m = String::from_str("action `");
            m.append(ground.to_string().as_str());
            m.append("` is not applicable at step ");
            m.append(decimal_string(i + 1).as_str());
            proof {
                assert(m@ =~= step_message(*task, state@, steps@[i as int], i as int));
                assert(fails_at(*task, steps@, i as int, m@));
            }
            return Err(Error::new(m));
        }
        proof {
            lemma_effects_bound(*task, *schema, ground.arguments.deep_view());
        }
        state = match apply(task, schema, &ground.arguments, &state) {
            Ok(next) => next,
            Err(e) => {
                proof {
                    assert(false);
                }
                return Err(e);
            },
        };
        i = i + 1;
    }
    proof {
        assert(steps@.take(i as int) =~= steps@);
    }
    Ok(state)
}

/// An effect of a well-formed schema, instantiated with well-typed arguments, is a
/// well-typed ground atom.
proof fn lemma_ground_effect_ok(task: Task, schema: Action, args: Seq<Seq<char>>, a: Atom)
    requires
        crate::logic::bindings_ok(task.types@, schema.parameters@),
        crate::logic::atom_ok(task, a, binding_scope(schema.parameters@)),
        args_ok(task, schema, args),
    ensures
        crate::logic::ground_atom_ok(task, ground(a, action_env(schema, args))),
{
    let scope = binding_scope(schema.parameters@);
    let env = action_env(schema, args);
    let x = ground(a, env);
    let k = choose|k: int|
        0 <= k < task.predicates@.len() && (#[trigger] task.predicates@[k]).name@ == a.predicate@
            && task.predicates@[k].parameters@.len() == a.terms@.len() && forall|i: int|
            0 <= i < a.terms@.len() ==> crate::logic::term_ok(task, #[trigger] a.terms@[i], scope, Some(task.predicates@[k].parameters@[i]@));
    assert forall|i: int| 0 <= i < x.1.len() implies object_ok(task.objects@, #[trigger] x.1[i], Some(task.predicates@[k].parameters@[i]@)) by {
        let t = a.terms@[i];
        let e = task.predicates@[k].parameters@[i]@;
        assert(crate::logic::term_ok(task, t, scope, Some(e)));
        assert(x.1[i] == term_value(t, env));
        if let Term::Variable(v) = t {
            let q = lemma_param_of_variable(task, schema, args, v@);
            assert forall|j: int| q < j < scope.len() implies (#[trigger] scope[j]).0 != v@ by {
                assert(schema.parameters@[q].name@ != schema.parameters@[j].name@);
            }
            lemma_lookup_at(scope, q, v@);
            let ty = schema.parameters@[q].ty@;
            assert(object_ok(task.objects@, args[q], Some(ty)));
            let o = choose|o: int| 0 <= o < task.objects@.len() && (#[trigger] task.objects@[o]).name@ == args[q]
                && crate::logic::expected_ok(task.objects@[o].ty@, Some(ty));
            assert(crate::logic::expected_ok(task.objects@[o].ty@, Some(e)));
        }
    }
}

/// A step of a valid task keeps a state well-typed.
proof fn lemma_step_state_ok(task: Task, u: Set<AtomV>, g: GroundAction)
    requires
        task_valid(task),
        crate::logic::state_ok(task, u),
        step_ok(task, u, g),
    ensures
        crate::logic::state_ok(task, step_result(task, u, g)),
{
    let k = schema_of(task, g.name@);
    let schema = task.actions@[k];
    let args = g.arguments.deep_view();
    assert(action_ok(task, schema));
    assert forall|x: AtomV| step_result(task, u, g).contains(x) implies crate::logic::ground_atom_ok(task, x) by {
        if !u.contains(x) {
            let j = choose|j: int| 0 <= j < schema.add@.len() && ground(#[trigger] schema.add@[j], action_env(schema, args)) == x;
            lemma_ground_effect_ok(task, schema, args, schema.add@[j]);
        }
    }
}

/// Runs keep states well-typed: in a valid task, a run from a state of well-typed ground atoms
/// reaches a state of well-typed ground atoms, so the goal can be evaluated there.
pub proof fn law_runs_keep_states_well_typed(task: Task, st: Set<AtomV>, steps: Seq<GroundAction>)
    requires
        task_valid(task),
        crate::logic::state_ok(task, st),
        run(task, st, steps) is Some,
    ensures
        crate::logic::state_ok(task, run(task, st, steps)->0),
    decreases steps.len(),
{
    if steps.len() > 0 {
        law_runs_keep_states_well_typed(task, st, steps.drop_last());
        lemma_step_state_ok(task, run(task, st, steps.drop_last())->0, steps.last());
    }
}

/// Once a prefix cannot be run, no extension of it can.
pub proof fn law_run_failure_persists(task: Task, st: Set<AtomV>, prefix: Seq<GroundAction>, steps: Seq<GroundAction>)
    requires
        run(task, st, prefix) is None,
        prefix.len() <= steps.len(),
        prefix == steps.take(prefix.len() as int),
    ensures
        run(task, st, steps) is None,
    decreases steps.len() - prefix.len(),
{
    if prefix.len() < steps.len() {
        let next = steps.take(prefix.len() as int + 1);
        assert(next.drop_last() =~= prefix);
        assert(run(task, st, next) is None);
        law_run_failure_persists(task, st, next, steps);
    } else {
        assert(prefix =~= steps);
    }
}


// ----------------------------------------------------------------------------------------------
// Lifted candidate generation
// ----------------------------------------------------------------------------------------------

/// At most this many positive conjuncts are joined with state facts per schema.
pub const MAX_JOIN_ATOMS: usize = 256;

/// Whether `a` is an atom reached from `f` through conjunctions only, so that it must hold
/// whenever `f` holds.
pub open spec fn conj_atom(f: Formula, a: Atom) -> bool
    decreases f, 0int,
{
    match f {
        Formula::Atom(b) => b == a,
        Formula::And(ps) => conj_atom_any(ps@, a),
        _ => false,
    }
}

pub open spec fn conj_atom_any(ps: Seq<Formula>, a: Atom) -> bool
    decreases ps, 0int,
{
    if ps.len() == 0 {
        false
    } else {
        conj_atom(ps[0], a) || conj_atom_any(ps.drop_first(), a)
    }
}

/// The atoms reached from `f` through conjunctions, in order.
pub open spec fn conj_seq(f: Formula) -> Seq<Atom>
    decreases f, 0int,
{
    match f {
        Formula::Atom(b) => seq![b],
        Formula::And(ps) => conj_seq_all(ps@),
        _ => Seq::empty(),
    }
}

pub open spec fn conj_seq_all(ps: Seq<Formula>) -> Seq<Atom>
    decreases ps, 0int,
{
    if ps.len() == 0 {
        Seq::empty()
    } else {
        conj_seq(ps[0]) + conj_seq_all(ps.drop_first())
    }
}

/// The first `room` elements of `s`, or all of them when there are fewer.
pub open spec fn fill<T>(s: Seq<T>, room: int) -> Seq<T> {
    if s.len() <= room { s } else { s.take(room) }
}

/// The atoms a list of references points to.
pub open spec fn atoms_of(v: Seq<&Atom>) -> Seq<Atom> {
    v.map_values(|a: &Atom| *a)
}

proof fn lemma_conj_seq_all_take(ps: Seq<Formula>, i: int)
    requires
        0 <= i < ps.len(),
    ensures
        conj_seq_all(ps.take(i + 1)) == conj_seq_all(ps.take(i)) + conj_seq(ps[i]),
    decreases i,
{
    if i == 0 {
        assert(ps.take(1).drop_first() =~= Seq::<Formula>::empty());
        assert(ps.take(0) =~= Seq::<Formula>::empty());
        assert(conj_seq_all(ps.take(1)) == conj_seq(ps[0]) + conj_seq_all(Seq::<Formula>::empty()));
        assert(conj_seq(ps[0]) + Seq::<Atom>::empty() =~= conj_seq(ps[0]));
        assert(Seq::<Atom>::empty() + conj_seq(ps[0]) =~= conj_seq(ps[0]));
    } else {
        lemma_conj_seq_all_take(ps.drop_first(), i - 1);
        assert(ps.take(i + 1).drop_first() =~= ps.drop_first().take(i));
        assert(ps.take(i).drop_first() =~= ps.drop_first().take(i - 1));
        assert(ps.take(i + 1)[0] == ps[0]);
        assert(ps.take(i)[0] == ps[0]);
        assert(ps.drop_first()[i - 1] == ps[i]);
        assert(conj_seq(ps[0]) + (conj_seq_all(ps.drop_first().take(i - 1)) + conj_seq(ps[i])) =~= (conj_seq(ps[0])
            + conj_seq_all(ps.drop_first().take(i - 1))) + conj_seq(ps[i]));
    }
}

/// Filling room after a part that fits leaves the part and fills what room is left.
proof fn lemma_fill_append<T>(p: Seq<T>, c: Seq<T>, room: int)
    requires
        p.len() <= room,
    ensures
        fill(p + c, room) == p + fill(c, room - p.len()),
{
    if c.len() > room - p.len() {
        assert((p + c).take(room) =~= p + c.take(room - p.len()));
    }
}

/// Once the filled part has no room left, what follows does not change it.
proof fn lemma_fill_full<T>(p: Seq<T>, c: Seq<T>, room: int)
    requires
        0 <= room,
        fill(p, room).len() == room,
    ensures
        fill(p + c, room) == fill(p, room),
{
    assert((p + c).take(room) =~= p.take(room));
}

/// An atom reached through conjunctions holds wherever the formula holds.
pub proof fn lemma_conj_atom_holds(objs: Seq<crate::model::Binding>, st: Set<AtomV>, f: Formula, a: Atom, env: Env)
    requires
        holds(objs, st, f, env),
        conj_atom(f, a),
    ensures
        st.contains(ground(a, env)),
    decreases f, 0int,
{
    if let Formula::And(ps) = f {
        lemma_conj_atom_holds_any(objs, st, ps@, a, env);
    }
}

pub proof fn lemma_conj_atom_holds_any(objs: Seq<crate::model::Binding>, st: Set<AtomV>, ps: Seq<Formula>, a: Atom, env: Env)
    requires
        crate::logic::holds_all(objs, st, ps, env),
        conj_atom_any(ps, a),
    ensures
        st.contains(ground(a, env)),
    decreases ps, 0int,
{
    if conj_atom(ps[0], a) {
        lemma_conj_atom_holds(objs, st, ps[0], a, env);
    } else {
        lemma_conj_atom_holds_any(objs, st, ps.drop_first(), a, env);
    }
}

/// An atom reached through conjunctions of a well-formed formula is well-formed.
pub proof fn lemma_conj_atom_ok(task: Task, f: Formula, a: Atom, scope: Env)
    requires
        formula_ok(task, f, scope),
        conj_atom(f, a),
    ensures
        atom_ok(task, a, scope),
    decreases f, 0int,
{
    if let Formula::And(ps) = f {
        lemma_conj_atom_ok_any(task, ps@, a, scope);
    }
}

pub proof fn lemma_conj_atom_ok_any(task: Task, ps: Seq<Formula>, a: Atom, scope: Env)
    requires
        crate::logic::formulas_ok(task, ps, scope),
        conj_atom_any(ps, a),
    ensures
        atom_ok(task, a, scope),
    decreases ps, 0int,
{
    if conj_atom(ps[0], a) {
        lemma_conj_atom_ok(task, ps[0], a, scope);
    } else {
        lemma_conj_atom_ok_any(task, ps.drop_first(), a, scope);
    }
}

/// Collects atoms reached through conjunctions, up to the join limit.
fn positive_conjuncts<'a>(f: &'a Formula, atoms: &mut Vec<&'a Atom>)
    requires
        old(atoms)@.len() <= MAX_JOIN_ATOMS,
    ensures
        final(atoms)@.len() <= MAX_JOIN_ATOMS,
        final(atoms)@.len() >= old(atoms)@.len(),
        forall|i: int| 0 <= i < old(atoms)@.len() ==> final(atoms)@[i] == old(atoms)@[i],
        forall|i: int| old(atoms)@.len() <= i < final(atoms)@.len() ==> conj_atom(*f, *#[trigger] final(atoms)@[i]),
        atoms_of(final(atoms)@) == atoms_of(old(atoms)@) + fill(conj_seq(*f), MAX_JOIN_ATOMS - old(atoms)@.len()),
    decreases f, 0int,
{
    if atoms.len() == MAX_JOIN_ATOMS {
        proof {
            assert(atoms_of(atoms@) + fill(conj_seq(*f), 0) =~= atoms_of(atoms@));
        }
        return;
    }
    match f {
        Formula::Atom(a) => {
            let ghost before = atoms@;
            atoms.push(a);
            proof {
                assert(atoms_of(atoms@) =~= atoms_of(before) + seq![*a]);
            }
        }
        Formula::And(parts) => positive_conjuncts_all(parts, atoms),
        _ => {
            proof {
                assert(atoms_of(atoms@) + Seq::<Atom>::empty() =~= atoms_of(atoms@));
            }
        }
    }
}

fn positive_conjuncts_all<'a>(parts: &'a Vec<Formula>, atoms: &mut Vec<&'a Atom>)
    requires
        old(atoms)@.len() <= MAX_JOIN_ATOMS,
    ensures
        final(atoms)@.len() <= MAX_JOIN_ATOMS,
        final(atoms)@.len() >= old(atoms)@.len(),
        forall|i: int| 0 <= i < old(atoms)@.len() ==> final(atoms)@[i] == old(atoms)@[i],
        forall|i: int| old(atoms)@.len() <= i < final(atoms)@.len() ==> conj_atom_any(parts@, *#[trigger] final(atoms)@[i]),
        atoms_of(final(atoms)@) == atoms_of(old(atoms)@) + fill(conj_seq_all(parts@), MAX_JOIN_ATOMS - old(atoms)@.len()),
    decreases parts, 0int,
{
    let ghost start = atoms@.len();
    let ghost room: int = MAX_JOIN_ATOMS - start;
    proof {
        assert(parts@.take(0) =~= Seq::<Formula>::empty());
        assert(parts@.take(parts@.len() as int) =~= parts@);
        assert(atoms_of(atoms@) + fill(conj_seq_all(parts@.take(0)), room) =~= atoms_of(atoms@));
    }
    let mut i: usize = 0;
    while i < parts.len()
        invariant
            i <= parts@.len(),
            start == old(atoms)@.len(),
            atoms@.len() <= MAX_JOIN_ATOMS,
            atoms@.len() >= start,
            forall|j: int| 0 <= j < start ==> atoms@[j] == old(atoms)@[j],
            forall|j: int| start <= j < atoms@.len() ==> conj_atom_any(parts@, *#[trigger] atoms@[j]),
            room == MAX_JOIN_ATOMS - start,
            parts@.take(parts@.len() as int) == parts@,
            atoms_of(atoms@) == atoms_of(old(atoms)@) + fill(conj_seq_all(parts@.take(i as int)), room),
        ensures
            atoms_of(atoms@) == atoms_of(old(atoms)@) + fill(conj_seq_all(parts@), room),
            atoms@.len() <= MAX_JOIN_ATOMS,
            atoms@.len() >= start,
            forall|j: int| 0 <= j < start ==> atoms@[j] == old(atoms)@[j],
            forall|j: int| start <= j < atoms@.len() ==> conj_atom_any(parts@, *#[trigger] atoms@[j]),
        decreases parts.len() - i,
    {
        if atoms.len() == MAX_JOIN_ATOMS {
            proof {
                let pre = conj_seq_all(parts@.take(i as int));
                assert(atoms_of(atoms@).len() == atoms@.len());
                assert(atoms_of(old(atoms)@).len() == old(atoms)@.len());
                assert(fill(pre, room).len() == room);
                assert forall|n: int| i <= n <= parts@.len() implies fill(conj_seq_all(#[trigger] parts@.take(n)), room)
                    == fill(pre, room) by {
                    lemma_fill_grow(parts@, i as int, n, room);
                }
                assert(parts@.take(parts@.len() as int) =~= parts@);
            }
            break;
        }
        let ghost cur = atoms@;
        proof {
            vstd::std_specs::vec::axiom_vec_index_decreases(*parts, i as int);
        }
        let ghost before = atoms@;
        positive_conjuncts(&parts[i], atoms);
        proof {
            assert forall|j: int| start <= j < atoms@.len() implies conj_atom_any(parts@, *#[trigger] atoms@[j]) by {
                if j >= before.len() {
                    lemma_conj_atom_any_member(parts@, i as int, *atoms@[j]);
                } else {
                    assert(atoms@[j] == before[j]);
                }
            }
            let pre = conj_seq_all(parts@.take(i as int));
            assert(pre.len() <= room) by {
                if pre.len() > room {
                    assert(fill(pre, room).len() == room);
                }
            }
            lemma_conj_seq_all_take(parts@, i as int);
            lemma_fill_append(pre, conj_seq(parts@[i as int]), room);
            assert(atoms_of(atoms@) =~= atoms_of(old(atoms)@) + fill(conj_seq_all(parts@.take(i + 1)), room));
        }
        i = i + 1;
    }
}

/// Once the part from the first `i` conjuncts fills the room, later conjuncts add nothing.
proof fn lemma_fill_grow(ps: Seq<Formula>, i: int, n: int, room: int)
    requires
        0 <= i <= n <= ps.len(),
        0 <= room,
        fill(conj_seq_all(ps.take(i)), room).len() == room,
    ensures
        fill(conj_seq_all(ps.take(n)), room) == fill(conj_seq_all(ps.take(i)), room),
    decreases n - i,
{
    if n > i {
        lemma_fill_grow(ps, i, n - 1, room);
        lemma_conj_seq_all_take(ps, n - 1);
        lemma_fill_full(conj_seq_all(ps.take(n - 1)), conj_seq(ps[n - 1]), room);
    }
}

pub proof fn lemma_conj_atom_any_member(ps: Seq<Formula>, i: int, a: Atom)
    requires
        0 <= i < ps.len(),
        conj_atom(ps[i], a),
    ensures
        conj_atom_any(ps, a),
    decreases i,
{
    if i > 0 {
        lemma_conj_atom_any_member(ps.drop_first(), i - 1, a);
    }
}


// ----------------------------------------------------------------------------------------------
// Bindings under construction
// ----------------------------------------------------------------------------------------------

/// Every entry of `beta` binds a parameter of `schema` to the corresponding argument.
pub open spec fn agrees(beta: Env, schema: Action, args: Seq<Seq<char>>) -> bool {
    forall|i: int| 0 <= i < beta.len() ==> #[trigger] binds(schema, args, beta[i])
}

/// The entry `e` binds a parameter of `schema` to its argument.
pub open spec fn binds(schema: Action, args: Seq<Seq<char>>, e: (Seq<char>, Seq<char>)) -> bool {
    exists|q: int|
        #![trigger schema.parameters@[q]]
        0 <= q < schema.parameters@.len() && schema.parameters@[q].name@ == e.0 && args[q] == e.1
}

/// Every entry of `beta` binds a parameter of `schema`.
pub open spec fn in_params(beta: Env, schema: Action) -> bool {
    forall|i: int|
        0 <= i < beta.len() ==> exists|q: int|
            #![trigger schema.parameters@[q]]
            0 <= q < schema.parameters@.len() && schema.parameters@[q].name@ == (#[trigger] beta[i]).0
}

pub proof fn lemma_lookup_some(env: Env, n: Seq<char>)
    requires
        lookup(env, n) is Some,
    ensures
        exists|i: int| 0 <= i < env.len() && (#[trigger] env[i]).0 == n && env[i].1 == lookup(env, n).unwrap(),
    decreases env.len(),
{
    if env.last().0 == n {
        assert(env[env.len() - 1].0 == n);
    } else {
        lemma_lookup_some(env.drop_last(), n);
        let i = choose|i: int| 0 <= i < env.drop_last().len() && (#[trigger] env.drop_last()[i]).0 == n
            && env.drop_last()[i].1 == lookup(env.drop_last(), n).unwrap();
        assert(env[i] == env.drop_last()[i]);
    }
}

pub proof fn lemma_lookup_at(env: Env, i: int, n: Seq<char>)
    requires
        0 <= i < env.len(),
        env[i].0 == n,
        forall|j: int| i < j < env.len() ==> (#[trigger] env[j]).0 != n,
    ensures
        lookup(env, n) == Some(env[i].1),
    decreases env.len(),
{
    if i < env.len() - 1 {
        assert(env[env.len() - 1].0 != n);
        assert forall|j: int| i < j < env.drop_last().len() implies (#[trigger] env.drop_last()[j]).0 != n by {
            assert(env.drop_last()[j] == env[j]);
        }
        lemma_lookup_at(env.drop_last(), i, n);
    }
}

/// With distinct parameter names, each parameter is bound to its own argument.
pub proof fn lemma_action_env_lookup(task: Task, schema: Action, args: Seq<Seq<char>>, q: int)
    requires
        crate::logic::bindings_ok(task.types@, schema.parameters@),
        args.len() == schema.parameters@.len(),
        0 <= q < args.len(),
    ensures
        lookup(action_env(schema, args), schema.parameters@[q].name@) == Some(args[q]),
{
    let e = action_env(schema, args);
    assert forall|j: int| q < j < e.len() implies (#[trigger] e[j]).0 != schema.parameters@[q].name@ by {
        assert(schema.parameters@[q].name@ != schema.parameters@[j].name@);
    }
    lemma_lookup_at(e, q, schema.parameters@[q].name@);
}

/// A bound variable of an agreeing binding carries its parameter's argument.
pub proof fn lemma_agrees_lookup(task: Task, beta: Env, schema: Action, args: Seq<Seq<char>>, q: int)
    requires
        crate::logic::bindings_ok(task.types@, schema.parameters@),
        agrees(beta, schema, args),
        0 <= q < schema.parameters@.len(),
        lookup(beta, schema.parameters@[q].name@) is Some,
    ensures
        lookup(beta, schema.parameters@[q].name@) == Some(args[q]),
{
    let n = schema.parameters@[q].name@;
    lemma_lookup_some(beta, n);
    let i = choose|i: int| 0 <= i < beta.len() && (#[trigger] beta[i]).0 == n && beta[i].1 == lookup(beta, n).unwrap();
    assert(binds(schema, args, beta[i]));
    let q2 = choose|q2: int|
        #![trigger schema.parameters@[q2]]
        0 <= q2 < schema.parameters@.len() && schema.parameters@[q2].name@ == beta[i].0 && args[q2] == beta[i].1;
    if q2 != q {
        if q2 < q {
            assert(schema.parameters@[q2].name@ != schema.parameters@[q].name@);
        } else {
            assert(schema.parameters@[q].name@ != schema.parameters@[q2].name@);
        }
    }
}

/// A variable that a well-formed atom uses is a parameter.
pub proof fn lemma_scope_variable(schema: Action, n: Seq<char>)
    requires
        lookup(binding_scope(schema.parameters@), n) is Some,
    ensures
        exists|q: int| #![trigger schema.parameters@[q]] 0 <= q < schema.parameters@.len() && schema.parameters@[q].name@ == n,
{
    let sc = binding_scope(schema.parameters@);
    lemma_lookup_some(sc, n);
    let i = choose|i: int| 0 <= i < sc.len() && (#[trigger] sc[i]).0 == n && sc[i].1 == lookup(sc, n).unwrap();
    assert(schema.parameters@[i].name@ == n);
}

// ----------------------------------------------------------------------------------------------
// The candidate pool
// ----------------------------------------------------------------------------------------------

/// Grounded action candidates, each interned once, across the whole search.
struct CandidatePool {
    actions: Vec<(usize, GroundAction)>,
}

/// Every pooled candidate instantiates its schema with well-typed arguments.
pub open spec fn pool_ok(task: Task, pool: Seq<(usize, GroundAction)>) -> bool {
    forall|c: int|
        0 <= c < pool.len() ==> {
            &&& (#[trigger] pool[c]).0 < task.actions@.len()
            &&& pool[c].1.name@ == task.actions@[pool[c].0 as int].name@
            &&& args_ok(task, task.actions@[pool[c].0 as int], pool[c].1.arguments.deep_view())
        }
}

/// A pooled candidate as its schema and argument names.
pub open spec fn pool_key(e: (usize, GroundAction)) -> (int, Seq<Seq<char>>) {
    (e.0 as int, e.1.arguments.deep_view())
}

/// Whether no two pooled candidates instantiate the same schema with the same arguments.
pub open spec fn distinct_pool(pool: Seq<(usize, GroundAction)>) -> bool {
    forall|a: int, b: int| 0 <= a < pool.len() && 0 <= b < pool.len() && a != b ==> pool_key(pool[a]) != pool_key(pool[b])
}

/// Whether more than `limit` distinct well-typed ground actions exist: schema indices with
/// arguments of the parameters' types.
pub open spec fn grounding_exceeds(task: Task, limit: int) -> bool {
    exists|ks: Seq<(int, Seq<Seq<char>>)>| {
        &&& ks.len() > limit
        &&& ks.no_duplicates()
        &&& forall|i: int| 0 <= i < ks.len() ==> 0 <= (#[trigger] ks[i]).0 < task.actions@.len()
            && args_ok(task, task.actions@[ks[i].0], ks[i].1)
    }
}

/// Whether `b` extends `a`.
pub open spec fn extends<T>(a: Seq<T>, b: Seq<T>) -> bool {
    a.len() <= b.len() && forall|i: int| 0 <= i < a.len() ==> #[trigger] b[i] == a[i]
}

/// Whether a candidate in `cands` instantiates schema `k` with `args`.
pub open spec fn offers(pool: Seq<(usize, GroundAction)>, cands: Seq<usize>, k: int, args: Seq<Seq<char>>) -> bool {
    exists|i: int|
        0 <= i < cands.len() && (#[trigger] cands[i] as int) < pool.len() && pool[cands[i] as int].0 == k
            && pool[cands[i] as int].1.arguments.deep_view() == args
}

/// Every candidate index refers to the pool.
pub open spec fn cands_ok(pool: Seq<(usize, GroundAction)>, cands: Seq<usize>) -> bool {
    forall|i: int| 0 <= i < cands.len() ==> (#[trigger] cands[i] as int) < pool.len()
}

pub proof fn lemma_offers_extends(
    pool: Seq<(usize, GroundAction)>,
    cands: Seq<usize>,
    pool2: Seq<(usize, GroundAction)>,
    cands2: Seq<usize>,
    k: int,
    args: Seq<Seq<char>>,
)
    requires
        offers(pool, cands, k, args),
        extends(pool, pool2),
        extends(cands, cands2),
    ensures
        offers(pool2, cands2, k, args),
{
    let i = choose|i: int|
        0 <= i < cands.len() && (#[trigger] cands[i] as int) < pool.len() && pool[cands[i] as int].0 == k
            && pool[cands[i] as int].1.arguments.deep_view() == args;
    assert(cands2[i] == cands[i]);
    assert(pool2[cands[i] as int] == pool[cands[i] as int]);
}

/// The message of the grounding-limit error.
pub open spec fn limit_message(limit: nat) -> Seq<char> {
    "ground action limit ("@ + crate::text::decimal(limit) + ") exceeded"@
}

impl CandidatePool {
    /// The index of the candidate instantiating schema `schema_index` with `arguments`,
    /// added if new; fails once the pool holds `limit` candidates.
    fn intern(&mut self, schema_index: usize, action: GroundAction, limit: usize) -> (r: Result<usize, Error>)
        requires
            distinct_pool(old(self).actions@),
        ensures
            distinct_pool(final(self).actions@),
            r is Err ==> old(self).actions@.len() >= limit && forall|i: int| 0 <= i < old(self).actions@.len()
                ==> pool_key(#[trigger] old(self).actions@[i]) != (schema_index as int, action.arguments.deep_view()),
            extends(old(self).actions@, final(self).actions@),
            r matches Ok(c) ==> c < final(self).actions@.len() && final(self).actions@[c as int].0 == schema_index
                && final(self).actions@[c as int].1.arguments.deep_view() == action.arguments.deep_view(),
            r matches Ok(c) ==> final(self).actions@.len() == old(self).actions@.len() || (final(self).actions@.len()
                == old(self).actions@.len() + 1 && final(self).actions@.last() == (schema_index, action)),
            r is Err ==> final(self).actions@ == old(self).actions@,
            r matches Err(e) ==> e.spec_kind() == ErrorKind::GroundingLimit,
            r matches Err(e) ==> e.spec_message() == limit_message(limit as nat),
            old(self).actions@.len() <= limit ==> final(self).actions@.len() <= limit,
            r is Err <==> (old(self).actions@.len() >= limit && !pool_keys(old(self).actions@).contains(
                (schema_index as int, action.arguments.deep_view()),
            )),
    {
        let mut i: usize = 0;
        while i < self.actions.len()
            invariant
                i <= self.actions@.len(),
                self.actions@ == old(self).actions@,
                distinct_pool(self.actions@),
                forall|j: int| 0 <= j < i ==> pool_key(#[trigger] self.actions@[j]) != (schema_index as int, action.arguments.deep_view()),
            decreases self.actions.len() - i,
        {
            if self.actions[i].0 == schema_index && crate::text::strings_equal(&self.actions[i].1.arguments, &action.arguments) {
                proof {
                    assert(pool_key(self.actions@[i as int]) == (schema_index as int, action.arguments.deep_view()));
                }
                return Ok(i);
            }
            i = i + 1;
        }
        let ghost before = self.actions@;
        if self.actions.len() >= limit {
            let mut m = String::from_str("ground action limit (");
            m.append(decimal_string(limit).as_str());
            m.append(") exceeded");
            proof {
                assert(m@ =~= limit_message(limit as nat));
            }
            return Err(Error::grounding_limit(m));
        }
        let index = self.actions.len();
        self.actions.push((schema_index, action));
        proof {
            assert forall|a: int, b: int| 0 <= a < self.actions@.len() && 0 <= b < self.actions@.len() && a != b
                implies pool_key(self.actions@[a]) != pool_key(self.actions@[b]) by {
                if a < before.len() && b < before.len() {
                    assert(self.actions@[a] == before[a] && self.actions@[b] == before[b]);
                } else if a < before.len() {
                    assert(self.actions@[a] == before[a]);
                    assert(pool_key(before[a]) != pool_key(self.actions@[b]));
                } else {
                    assert(self.actions@[b] == before[b]);
                    assert(pool_key(before[b]) != pool_key(self.actions@[a]));
                }
            }
        }
        Ok(index)
    }
}


/// Whether some object named `name` may stand for a parameter of type `ty`.
fn object_of_type(task: &Task, name: &String, ty: &String) -> (r: bool)
    ensures
        r == object_ok(task.objects@, name@, Some(ty@)),
{
    let any = is_object_type(ty);
    let mut k: usize = 0;
    while k < task.objects.len()
        invariant
            k <= task.objects@.len(),
            any == (ty@ == "object"@),
            forall|j: int| 0 <= j < k && (#[trigger] task.objects@[j]).name@ == name@ ==> !crate::logic::expected_ok(
                task.objects@[j].ty@, Some(ty@)),
        decreases task.objects.len() - k,
    {
        if task.objects[k].name == *name && (any || task.objects[k].ty == *ty) {
            proof {
                assert(task.objects@[k as int].name@ == name@);
            }
            return true;
        }
        k = k + 1;
    }
    false
}

/// The facts every caller of `complete_binding` must supply.
pub open spec fn binding_ready(task: Task, k: int, index: int, beta: Env) -> bool {
    &&& in_params(beta, task.actions@[k])
    &&& forall|q: int|
        0 <= q < index ==> lookup(beta, (#[trigger] task.actions@[k].parameters@[q]).name@) is Some && object_ok(
            task.objects@,
            lookup(beta, task.actions@[k].parameters@[q].name@).unwrap(),
            Some(task.actions@[k].parameters@[q].ty@),
        )
}

/// Extends a partial binding over the remaining parameters with every object of the right
/// type, checking the types of values already bound, and emits each complete candidate.
fn complete_binding(
    task: &Task,
    k: usize,
    index: usize,
    binding: &mut Vec<(String, String)>,
    pool: &mut CandidatePool,
    limit: usize,
    cands: &mut Vec<usize>,
) -> (r: Result<(), Error>)
    requires
        task_valid(*task),
        k < task.actions@.len(),
        index <= task.actions@[k as int].parameters@.len(),
        binding_ready(*task, k as int, index as int, env_view(old(binding)@)),
        pool_ok(*task, old(pool).actions@),
        distinct_pool(old(pool).actions@),
        old(pool).actions@.len() <= limit,
        cands_ok(old(pool).actions@, old(cands)@),
    ensures
        final(binding)@ == old(binding)@,
        pool_ok(*task, final(pool).actions@),
        distinct_pool(final(pool).actions@),
        final(pool).actions@.len() <= limit,
        r is Err ==> grounding_exceeds(*task, limit as int),
        extends(old(pool).actions@, final(pool).actions@),
        extends(old(cands)@, final(cands)@),
        cands_ok(final(pool).actions@, final(cands)@),
        r matches Err(e) ==> e.spec_kind() == ErrorKind::GroundingLimit,
        r matches Err(e) ==> e.spec_message() == limit_message(limit as nat),
        r is Ok ==> forall|args: Seq<Seq<char>>|
            args_ok(*task, task.actions@[k as int], args) && #[trigger] agrees(env_view(old(binding)@), task.actions@[k as int], args)
                ==> offers(final(pool).actions@, final(cands)@, k as int, args),
        forall|i: int| old(pool).actions@.len() <= i < final(pool).actions@.len() ==> (#[trigger] final(pool).actions@[i]).0 == k
            && consistent(env_view(old(binding)@), task.actions@[k as int], final(pool).actions@[i].1.arguments.deep_view()),
        r is Err ==> final(pool).actions@.len() >= limit && exists|args: Seq<Seq<char>>|
            args_ok(*task, task.actions@[k as int], args) && #[trigger] consistent(env_view(old(binding)@), task.actions@[k as int], args)
                && !pool_keys(final(pool).actions@).contains((k as int, args)),
    decreases task.actions@[k as int].parameters@.len() - index,
{
    let schema = &task.actions[k];
    let params = &schema.parameters;
    let ghost beta = env_view(binding@);
    proof {
        assert(crate::logic::action_ok(*task, *schema));
    }
    if index == params.len() {
        let mut arguments: Vec<String> = Vec::new();
        let mut q: usize = 0;
        while q < params.len()
            invariant
                q <= params@.len(),
                params == &schema.parameters,
                *schema == task.actions@[k as int],
                beta == env_view(binding@),
                index == params@.len(),
                binding_ready(*task, k as int, index as int, beta),
                arguments@.len() == q,
                forall|j: int| 0 <= j < q ==> Some((#[trigger] arguments@[j])@) == lookup(beta, params@[j].name@),
            decreases params.len() - q,
        {
            assert(lookup(beta, task.actions@[k as int].parameters@[q as int].name@) is Some);
            match crate::logic::lookup_exec(binding, &params[q].name) {
                Some(v) => arguments.push(v),
                None => {
                    proof {
                        assert(false);
                    }
                    return Ok(());
                }
            }
            q = q + 1;
        }
        let ghost av = arguments.deep_view();
        let action = GroundAction { name: schema.name.clone(), arguments };
        proof {
            assert(args_ok(*task, *schema, av)) by {
                assert forall|j: int| 0 <= j < av.len() implies object_ok(task.objects@, #[trigger] av[j], Some(schema.parameters@[j].ty@)) by {
                    assert(lookup(beta, task.actions@[k as int].parameters@[j].name@) is Some);
                }
            }
        }
        let c = match pool.intern(k, action, limit) {
            Ok(c) => c,
            Err(e) => {
                proof {
                    let ps = pool.actions@;
                    let ks = ps.map_values(|e: (usize, GroundAction)| pool_key(e)).push((k as int, av));
                    assert(ks.no_duplicates()) by {
                        assert forall|a: int, b: int| 0 <= a < ks.len() && 0 <= b < ks.len() && a != b implies ks[a] != ks[b] by {
                            if a < ps.len() && b < ps.len() {
                                assert(ks[a] == pool_key(ps[a]) && ks[b] == pool_key(ps[b]));
                            } else if a < ps.len() {
                                assert(ks[a] == pool_key(ps[a]));
                            } else {
                                assert(ks[b] == pool_key(ps[b]));
                            }
                        }
                    }
                    assert forall|i: int| 0 <= i < ks.len() implies 0 <= (#[trigger] ks[i]).0 < task.actions@.len()
                        && args_ok(*task, task.actions@[ks[i].0], ks[i].1) by {
                        if i < ps.len() {
                            assert(ks[i] == pool_key(ps[i]));
                            assert(pool_ok(*task, ps));
                            assert(ps[i].0 < task.actions@.len());
                        }
                    }
                    assert(consistent(beta, *schema, av)) by {
                    assert forall|q2: int| 0 <= q2 < schema.parameters@.len()
                        && (#[trigger] lookup(beta, schema.parameters@[q2].name@)) is Some
                        implies av[q2] == lookup(beta, schema.parameters@[q2].name@)->0 by {
                        assert(Some(av[q2]) == lookup(beta, params@[q2].name@));
                    }
                }
                    assert(!pool_keys(ps).contains((k as int, av))) by {
                        if pool_keys(ps).contains((k as int, av)) {
                            let i = choose|i: int| 0 <= i < ps.len() && #[trigger] pool_key(ps[i]) == (k as int, av);
                        }
                    }
                }
                return Err(e);
            },
        };
        let ghost before = cands@;
        cands.push(c);
        proof {
            assert forall|c2: int| 0 <= c2 < pool.actions@.len() implies {
                &&& (#[trigger] pool.actions@[c2]).0 < task.actions@.len()
                &&& pool.actions@[c2].1.name@ == task.actions@[pool.actions@[c2].0 as int].name@
                &&& args_ok(*task, task.actions@[pool.actions@[c2].0 as int], pool.actions@[c2].1.arguments.deep_view())
            } by {
                if c2 < old(pool).actions@.len() {
                    assert(pool.actions@[c2] == old(pool).actions@[c2]);
                }
            }
            assert forall|i: int| 0 <= i < cands@.len() implies (#[trigger] cands@[i] as int) < pool.actions@.len() by {
                if i < before.len() {
                    assert(cands@[i] == before[i]);
                }
            }
            assert forall|args: Seq<Seq<char>>|
                args_ok(*task, task.actions@[k as int], args) && #[trigger] agrees(beta, task.actions@[k as int], args)
                implies offers(pool.actions@, cands@, k as int, args) by {
                assert forall|j: int| 0 <= j < args.len() implies av[j] == args[j] by {
                    lemma_agrees_lookup(*task, beta, *schema, args, j);
                    assert(Some(av[j]) == lookup(beta, params@[j].name@));
                }
                assert(av =~= args);
                assert(cands@[cands@.len() - 1] == c);
            }
            assert(consistent(beta, *schema, av)) by {
                    assert forall|q2: int| 0 <= q2 < schema.parameters@.len()
                        && (#[trigger] lookup(beta, schema.parameters@[q2].name@)) is Some
                        implies av[q2] == lookup(beta, schema.parameters@[q2].name@)->0 by {
                        assert(Some(av[q2]) == lookup(beta, params@[q2].name@));
                    }
                }
        }
        return Ok(());
    }
    let param = &params[index];
    match crate::logic::lookup_exec(binding, &param.name) {
        Some(v) => {
            if !object_of_type(task, &v, &param.ty) {
                proof {
                    assert forall|args: Seq<Seq<char>>|
                        args_ok(*task, task.actions@[k as int], args) && #[trigger] agrees(beta, task.actions@[k as int], args)
                        implies offers(pool.actions@, cands@, k as int, args) by {
                        lemma_agrees_lookup(*task, beta, *schema, args, index as int);
                        assert(object_ok(task.objects@, args[index as int], Some(params@[index as int].ty@)));
                    }
                }
                return Ok(());
            }
            proof {
                assert(binding_ready(*task, k as int, index + 1, beta)) by {
                    assert forall|q: int| 0 <= q < index + 1 implies lookup(beta, (#[trigger] task.actions@[k as int].parameters@[q]).name@) is Some
                        && object_ok(task.objects@, lookup(beta, task.actions@[k as int].parameters@[q].name@).unwrap(),
                        Some(task.actions@[k as int].parameters@[q].ty@)) by {
                    }
                }
            }
            complete_binding(task, k, index + 1, binding, pool, limit, cands)
        }
        None => {
            let ghost pool0 = pool.actions@;
            let ghost cands0 = cands@;
            let mut j: usize = 0;
            while j < task.objects.len()
                invariant
                    j <= task.objects@.len(),
                    task_valid(*task),
                    k < task.actions@.len(),
                    *schema == task.actions@[k as int],
                    params == &schema.parameters,
                    param == params@[index as int],
                    index < params@.len(),
                    binding@ == old(binding)@,
                    beta == env_view(binding@),
                    lookup(beta, param.name@) is None,
                    binding_ready(*task, k as int, index as int, beta),
                    pool0 == old(pool).actions@,
                    cands0 == old(cands)@,
                    pool_ok(*task, pool.actions@),
                    distinct_pool(pool.actions@),
                    pool.actions@.len() <= limit,
                    extends(pool0, pool.actions@),
                    extends(cands0, cands@),
                    cands_ok(pool.actions@, cands@),
                    forall|args: Seq<Seq<char>>|
                        args_ok(*task, task.actions@[k as int], args) && #[trigger] agrees(beta, task.actions@[k as int], args)
                        && (exists|m: int| 0 <= m < j && (#[trigger] task.objects@[m]).name@ == args[index as int]
                            && crate::logic::expected_ok(task.objects@[m].ty@, Some(param.ty@)))
                        ==> offers(pool.actions@, cands@, k as int, args),
                    forall|i: int| pool0.len() <= i < pool.actions@.len() ==> (#[trigger] pool.actions@[i]).0 == k
                        && consistent(beta, task.actions@[k as int], pool.actions@[i].1.arguments.deep_view()),
                decreases task.objects.len() - j,
            {
                let object = &task.objects[j];
                if is_object_type(&param.ty) || object.ty == param.ty {
                    let ghost pool1 = pool.actions@;
                    let ghost cands1 = cands@;
                    binding.push((param.name.clone(), object.name.clone()));
                    let ghost beta1 = env_view(binding@);
                    proof {
                        assert(beta1 =~= beta.push((param.name@, object.name@)));
                        assert(in_params(beta1, task.actions@[k as int])) by {
                            assert forall|i: int| 0 <= i < beta1.len() implies exists|q: int|
                                #![trigger task.actions@[k as int].parameters@[q]]
                                0 <= q < task.actions@[k as int].parameters@.len()
                                    && task.actions@[k as int].parameters@[q].name@ == (#[trigger] beta1[i]).0 by {
                                if i < beta.len() {
                                    assert(beta1[i] == beta[i]);
                                } else {
                                    assert(task.actions@[k as int].parameters@[index as int].name@ == beta1[i].0);
                                }
                            }
                        }
                        assert(binding_ready(*task, k as int, index + 1, beta1)) by {
                            assert forall|q: int| 0 <= q < index + 1 implies lookup(beta1, (#[trigger] task.actions@[k as int].parameters@[q]).name@) is Some
                                && object_ok(task.objects@, lookup(beta1, task.actions@[k as int].parameters@[q].name@).unwrap(),
                                Some(task.actions@[k as int].parameters@[q].ty@)) by {
                                if q < index {
                                    assert(params@[q].name@ != params@[index as int].name@);
                                    assert(beta1.drop_last() =~= beta);
                                    assert(lookup(beta1, params@[q].name@) == lookup(beta, params@[q].name@));
                                } else {
                                    assert(task.objects@[j as int].name@ == object.name@);
                                }
                            }
                        }
                    }
                    proof {
                        assert(keeps(beta, beta1)) by {
                            assert forall|n: Seq<char>| (#[trigger] lookup(beta, n)) is Some implies lookup(beta1, n) == lookup(beta, n) by {
                                lemma_lookup_push(beta, (param.name@, object.name@), n);
                            }
                        }
                    }
                    let result = complete_binding(task, k, index + 1, binding, pool, limit, cands);
                    proof {
                        assert forall|i: int| pool0.len() <= i < pool.actions@.len() implies (#[trigger] pool.actions@[i]).0 == k
                            && consistent(beta, task.actions@[k as int], pool.actions@[i].1.arguments.deep_view()) by {
                            if i < pool1.len() {
                                assert(pool.actions@[i] == pool1[i]);
                            } else {
                                lemma_consistent_keeps(beta, beta1, task.actions@[k as int], pool.actions@[i].1.arguments.deep_view());
                            }
                        }
                        if result is Err {
                            let args = choose|args: Seq<Seq<char>>|
                                args_ok(*task, task.actions@[k as int], args) && #[trigger] consistent(beta1, task.actions@[k as int], args)
                                    && !pool_keys(pool.actions@).contains((k as int, args));
                            lemma_consistent_keeps(beta, beta1, task.actions@[k as int], args);
                        }
                    }
                    binding.pop();
                    proof {
                        assert(binding@ =~= old(binding)@);
                    }
                    match result {
                        Ok(()) => {},
                        Err(e) => {
                            proof {
                                assert(extends(pool0, pool.actions@)) by {
                                    assert forall|i: int| 0 <= i < pool0.len() implies #[trigger] pool.actions@[i] == pool0[i] by {
                                        assert(pool.actions@[i] == pool1[i]);
                                    }
                                }
                                assert(extends(cands0, cands@)) by {
                                    assert forall|i: int| 0 <= i < cands0.len() implies #[trigger] cands@[i] == cands0[i] by {
                                        assert(cands@[i] == cands1[i]);
                                    }
                                }
                            }
                            return Err(e);
                        }
                    }
                    proof {
                        assert(extends(pool0, pool.actions@)) by {
                            assert forall|i: int| 0 <= i < pool0.len() implies #[trigger] pool.actions@[i] == pool0[i] by {
                                assert(pool.actions@[i] == pool1[i]);
                            }
                        }
                        assert(extends(cands0, cands@)) by {
                            assert forall|i: int| 0 <= i < cands0.len() implies #[trigger] cands@[i] == cands0[i] by {
                                assert(cands@[i] == cands1[i]);
                            }
                        }
                        assert forall|args: Seq<Seq<char>>|
                            args_ok(*task, task.actions@[k as int], args) && #[trigger] agrees(beta, task.actions@[k as int], args)
                            && (exists|m: int| 0 <= m < j + 1 && (#[trigger] task.objects@[m]).name@ == args[index as int]
                                && crate::logic::expected_ok(task.objects@[m].ty@, Some(param.ty@)))
                            implies offers(pool.actions@, cands@, k as int, args) by {
                            if args[index as int] == object.name@ {
                                assert(agrees(beta1, task.actions@[k as int], args)) by {
                                    assert forall|i: int| 0 <= i < beta1.len() implies #[trigger] binds(
                                        task.actions@[k as int],
                                        args,
                                        beta1[i],
                                    ) by {
                                        if i < beta.len() {
                                            assert(beta1[i] == beta[i]);
                                            assert(binds(task.actions@[k as int], args, beta[i]));
                                        } else {
                                            assert(task.actions@[k as int].parameters@[index as int].name@ == beta1[i].0);
                                        }
                                    }
                                }
                            } else {
                                let m = choose|m: int| 0 <= m < j + 1 && (#[trigger] task.objects@[m]).name@ == args[index as int]
                                    && crate::logic::expected_ok(task.objects@[m].ty@, Some(param.ty@));
                                assert(m != j);
                                assert(offers(pool1, cands1, k as int, args));
                                lemma_offers_extends(pool1, cands1, pool.actions@, cands@, k as int, args);
                            }
                        }
                    }
                } else {
                    proof {
                        assert forall|args: Seq<Seq<char>>|
                            args_ok(*task, task.actions@[k as int], args) && #[trigger] agrees(beta, task.actions@[k as int], args)
                            && (exists|m: int| 0 <= m < j + 1 && (#[trigger] task.objects@[m]).name@ == args[index as int]
                                && crate::logic::expected_ok(task.objects@[m].ty@, Some(param.ty@)))
                            implies offers(pool.actions@, cands@, k as int, args) by {
                            let m = choose|m: int| 0 <= m < j + 1 && (#[trigger] task.objects@[m]).name@ == args[index as int]
                                && crate::logic::expected_ok(task.objects@[m].ty@, Some(param.ty@));
                            assert(m != j);
                        }
                    }
                }
                j = j + 1;
            }
            proof {
                assert forall|args: Seq<Seq<char>>|
                    args_ok(*task, task.actions@[k as int], args) && #[trigger] agrees(beta, task.actions@[k as int], args)
                    implies offers(pool.actions@, cands@, k as int, args) by {
                    assert(object_ok(task.objects@, args[index as int], Some(params@[index as int].ty@)));
                }
            }
            Ok(())
        }
    }
}


// ----------------------------------------------------------------------------------------------
// Joining precondition atoms with the facts of a state
// ----------------------------------------------------------------------------------------------

/// The parameter a variable of a well-formed action atom names, and its argument.
proof fn lemma_param_of_variable(task: Task, schema: Action, args: Seq<Seq<char>>, v: Seq<char>) -> (q: int)
    requires
        crate::logic::bindings_ok(task.types@, schema.parameters@),
        args.len() == schema.parameters@.len(),
        lookup(binding_scope(schema.parameters@), v) is Some,
    ensures
        0 <= q < schema.parameters@.len(),
        schema.parameters@[q].name@ == v,
        lookup(action_env(schema, args), v) == Some(args[q]),
{
    lemma_scope_variable(schema, v);
    let q = choose|q: int| #![trigger schema.parameters@[q]] 0 <= q < schema.parameters@.len() && schema.parameters@[q].name@ == v;
    lemma_action_env_lookup(task, schema, args, q);
    q
}

/// Whether the atoms from `index` on all hold in `st` under `env`.
pub open spec fn rest_hold(st: Set<AtomV>, atoms: Seq<&Atom>, index: int, env: Env) -> bool {
    forall|i: int| index <= i < atoms.len() ==> st.contains(ground(*#[trigger] atoms[i], env))
}

/// Extends `binding` so that the terms of `atom` denote the arguments of `fact`, if they can.
fn match_terms(task: &Task, k: usize, atom: &Atom, fact: &GroundAtom, binding: &mut Vec<(String, String)>) -> (r: bool)
    requires
        task_valid(*task),
        k < task.actions@.len(),
        atom_ok(*task, *atom, binding_scope(task.actions@[k as int].parameters@)),
        in_params(env_view(old(binding)@), task.actions@[k as int]),
        fact.arguments@.len() == atom.terms@.len(),
    ensures
        extends(old(binding)@, final(binding)@),
        in_params(env_view(final(binding)@), task.actions@[k as int]),
        r ==> forall|args: Seq<Seq<char>>|
            args.len() == task.actions@[k as int].parameters@.len()
                && #[trigger] agrees(env_view(old(binding)@), task.actions@[k as int], args)
                && ground(*atom, action_env(task.actions@[k as int], args)).1 == fact.arguments.deep_view()
                ==> agrees(env_view(final(binding)@), task.actions@[k as int], args),
        !r ==> forall|args: Seq<Seq<char>>|
            args.len() == task.actions@[k as int].parameters@.len()
                && #[trigger] agrees(env_view(old(binding)@), task.actions@[k as int], args)
                ==> ground(*atom, action_env(task.actions@[k as int], args)).1 != fact.arguments.deep_view(),
        r ==> forall|args: Seq<Seq<char>>|
            args.len() == task.actions@[k as int].parameters@.len()
                && #[trigger] consistent(env_view(final(binding)@), task.actions@[k as int], args)
                ==> ground(*atom, action_env(task.actions@[k as int], args)).1 == fact.arguments.deep_view(),
        keeps(env_view(old(binding)@), env_view(final(binding)@)),
{
    let ghost schema = task.actions@[k as int];
    let ghost scope = binding_scope(schema.parameters@);
    let ghost beta0 = env_view(binding@);
    let ghost fv = fact.arguments.deep_view();
    proof {
        assert(action_ok(*task, schema));
    }
    let ghost pk = choose|pk: int|
        0 <= pk < task.predicates@.len() && (#[trigger] task.predicates@[pk]).name@ == atom.predicate@
            && task.predicates@[pk].parameters@.len() == atom.terms@.len() && forall|i: int|
            0 <= i < atom.terms@.len() ==> crate::logic::term_ok(
                *task,
                #[trigger] atom.terms@[i],
                scope,
                Some(task.predicates@[pk].parameters@[i]@),
            );
    let mut p: usize = 0;
    while p < atom.terms.len()
        invariant
            p <= atom.terms@.len(),
            fact.arguments@.len() == atom.terms@.len(),
            fv == fact.arguments.deep_view(),
            task_valid(*task),
            k < task.actions@.len(),
            schema == task.actions@[k as int],
            scope == binding_scope(schema.parameters@),
            action_ok(*task, schema),
            0 <= pk < task.predicates@.len(),
            forall|i: int| 0 <= i < atom.terms@.len() ==> crate::logic::term_ok(
                *task,
                #[trigger] atom.terms@[i],
                scope,
                Some(task.predicates@[pk].parameters@[i]@),
            ),
            beta0 == env_view(old(binding)@),
            extends(old(binding)@, binding@),
            in_params(env_view(binding@), schema),
            forall|args: Seq<Seq<char>>|
                args.len() == schema.parameters@.len() && #[trigger] agrees(beta0, schema, args)
                    && (forall|p2: int| 0 <= p2 < p ==> crate::logic::term_value(#[trigger] atom.terms@[p2], action_env(schema, args)) == fv[p2])
                    ==> agrees(env_view(binding@), schema, args),
            forall|p2: int| 0 <= p2 < p ==> term_fixed(#[trigger] atom.terms@[p2], env_view(binding@), fv[p2]),
            keeps(beta0, env_view(binding@)),
        decreases atom.terms.len() - p,
    {
        let ghost beta = env_view(binding@);
        let ghost before = binding@;
        match &atom.terms[p] {
            Term::Constant(c) => {
                if *c != fact.arguments[p] {
                    proof {
                        assert forall|args: Seq<Seq<char>>|
                            args.len() == schema.parameters@.len() && #[trigger] agrees(beta0, schema, args)
                            implies ground(*atom, action_env(schema, args)).1 != fv by {
                            let g = ground(*atom, action_env(schema, args)).1;
                            assert(g[p as int] == c@);
                            assert(fv[p as int] == fact.arguments@[p as int]@);
                        }
                    }
                    return false;
                }
            }
            Term::Variable(v) => {
                proof {
                    assert(crate::logic::term_ok(*task, atom.terms@[p as int], scope, Some(task.predicates@[pk].parameters@[p as int]@)));
                    assert(lookup(scope, v@) is Some);
                }
                match crate::logic::lookup_exec(binding, v) {
                    Some(val) => {
                        if val != fact.arguments[p] {
                            proof {
                                assert forall|args: Seq<Seq<char>>|
                                    args.len() == schema.parameters@.len() && #[trigger] agrees(beta0, schema, args)
                                    implies ground(*atom, action_env(schema, args)).1 != fv by {
                                    let g = ground(*atom, action_env(schema, args)).1;
                                    if g == fv {
                                        assert forall|p2: int| 0 <= p2 < p implies crate::logic::term_value(#[trigger] atom.terms@[p2], action_env(schema, args)) == fv[p2] by {
                                            assert(g[p2] == fv[p2]);
                                        }
                                        assert(agrees(beta, schema, args));
                                        let q = lemma_param_of_variable(*task, schema, args, v@);
                                        lemma_agrees_lookup(*task, beta, schema, args, q);
                                        assert(g[p as int] == args[q]);
                                        assert(fv[p as int] == fact.arguments@[p as int]@);
                                    }
                                }
                            }
                            return false;
                        }
                    }
                    None => {
                        binding.push((v.clone(), fact.arguments[p].clone()));
                        proof {
                            let beta1 = env_view(binding@);
                            assert(beta1 =~= beta.push((v@, fv[p as int])));
                            let q0 = lemma_param_of_variable(*task, schema, schema.parameters@.map_values(|b: crate::model::Binding| b.name@), v@);
                            assert(in_params(beta1, schema)) by {
                                assert forall|i: int| 0 <= i < beta1.len() implies exists|q: int|
                                    #![trigger schema.parameters@[q]]
                                    0 <= q < schema.parameters@.len() && schema.parameters@[q].name@ == (#[trigger] beta1[i]).0 by {
                                    if i < beta.len() {
                                        assert(beta1[i] == beta[i]);
                                    } else {
                                        assert(schema.parameters@[q0].name@ == beta1[i].0);
                                    }
                                }
                            }
                            assert(extends(old(binding)@, binding@)) by {
                                assert forall|i: int| 0 <= i < old(binding)@.len() implies #[trigger] binding@[i] == old(binding)@[i] by {
                                    assert(binding@[i] == before[i]);
                                }
                            }
                        }
                    }
                }
            }
        }
        proof {
            let beta1 = env_view(binding@);
            assert forall|args: Seq<Seq<char>>|
                args.len() == schema.parameters@.len() && #[trigger] agrees(beta0, schema, args)
                    && (forall|p2: int| 0 <= p2 < p + 1 ==> crate::logic::term_value(#[trigger] atom.terms@[p2], action_env(schema, args)) == fv[p2])
                implies agrees(beta1, schema, args) by {
                assert(agrees(beta, schema, args));
                if beta1.len() > beta.len() {
                    let v = atom.terms@[p as int]->Variable_0;
                    let q = lemma_param_of_variable(*task, schema, args, v@);
                    assert(crate::logic::term_value(atom.terms@[p as int], action_env(schema, args)) == fv[p as int]);
                    assert forall|i: int| 0 <= i < beta1.len() implies #[trigger] binds(schema, args, beta1[i]) by {
                        if i < beta.len() {
                            assert(beta1[i] == beta[i]);
                            assert(binds(schema, args, beta[i]));
                        } else {
                            assert(schema.parameters@[q].name@ == beta1[i].0);
                        }
                    }
                }
            }
            assert(keeps(beta0, beta1)) by {
                if beta1.len() > beta.len() {
                    assert(beta1 == beta.push(beta1.last()));
                    assert forall|n: Seq<char>| (#[trigger] lookup(beta0, n)) is Some implies lookup(beta1, n) == lookup(beta0, n) by {
                        lemma_lookup_push(beta, beta1.last(), n);
                    }
                } else {
                    assert(beta1 == beta);
                }
            }
            assert forall|p2: int| 0 <= p2 < p + 1 implies term_fixed(#[trigger] atom.terms@[p2], beta1, fv[p2]) by {
                if p2 == p {
                    if let Term::Constant(c) = atom.terms@[p as int] {
                        assert(fv[p as int] == fact.arguments@[p as int]@);
                    } else if beta1.len() > beta.len() {
                        lemma_lookup_push(beta, beta1.last(), atom.terms@[p as int]->Variable_0@);
                        assert(beta1 == beta.push(beta1.last()));
                    } else {
                        assert(fv[p as int] == fact.arguments@[p as int]@);
                    }
                } else if beta1.len() > beta.len() {
                    assert(term_fixed(atom.terms@[p2], beta, fv[p2]));
                    assert(beta1 == beta.push(beta1.last()));
                    if let Term::Variable(v) = atom.terms@[p2] {
                        lemma_lookup_push(beta, beta1.last(), v@);
                    }
                }
            }
        }
        p = p + 1;
    }
    proof {
        assert forall|args: Seq<Seq<char>>|
            args.len() == schema.parameters@.len() && #[trigger] agrees(beta0, schema, args)
                && ground(*atom, action_env(schema, args)).1 == fv
            implies agrees(env_view(binding@), schema, args) by {
            let g = ground(*atom, action_env(schema, args)).1;
            assert forall|p2: int| 0 <= p2 < p implies crate::logic::term_value(#[trigger] atom.terms@[p2], action_env(schema, args)) == fv[p2] by {
                assert(g[p2] == fv[p2]);
            }
        }
        assert forall|args: Seq<Seq<char>>|
            args.len() == schema.parameters@.len() && #[trigger] consistent(env_view(binding@), schema, args)
            implies ground(*atom, action_env(schema, args)).1 == fv by {
            let g = ground(*atom, action_env(schema, args)).1;
            assert forall|p2: int| 0 <= p2 < g.len() implies g[p2] == fv[p2] by {
                assert(term_fixed(atom.terms@[p2], env_view(binding@), fv[p2]));
                assert(crate::logic::term_ok(*task, atom.terms@[p2], scope, Some(task.predicates@[pk].parameters@[p2]@)));
                lemma_term_fixed(*task, schema, atom.terms@[p2], env_view(binding@), args, fv[p2]);
            }
            assert(g =~= fv);
        }
    }
    true
}

/// Whether `args` gives every parameter that `beta` binds the object `beta` binds it to.
pub open spec fn consistent(beta: Env, schema: Action, args: Seq<Seq<char>>) -> bool {
    forall|q: int|
        0 <= q < schema.parameters@.len() && (#[trigger] lookup(beta, schema.parameters@[q].name@)) is Some
            ==> args[q] == lookup(beta, schema.parameters@[q].name@)->0
}

/// Whether `beta1` keeps every binding of `beta`.
pub open spec fn keeps(beta: Env, beta1: Env) -> bool {
    forall|n: Seq<char>| (#[trigger] lookup(beta, n)) is Some ==> lookup(beta1, n) == lookup(beta, n)
}

/// Arguments consistent with a binding are consistent with every binding it keeps.
proof fn lemma_consistent_keeps(beta: Env, beta1: Env, schema: Action, args: Seq<Seq<char>>)
    requires
        keeps(beta, beta1),
        consistent(beta1, schema, args),
    ensures
        consistent(beta, schema, args),
{
    assert forall|q: int|
        0 <= q < schema.parameters@.len() && (#[trigger] lookup(beta, schema.parameters@[q].name@)) is Some
        implies args[q] == lookup(beta, schema.parameters@[q].name@)->0 by {
        assert(lookup(beta1, schema.parameters@[q].name@) == lookup(beta, schema.parameters@[q].name@));
    }
}

/// Whether a term denotes `value` under the binding under construction.
pub open spec fn term_fixed(t: Term, beta: Env, value: Seq<char>) -> bool {
    match t {
        Term::Constant(c) => c@ == value,
        Term::Variable(v) => lookup(beta, v@) == Some(value),
    }
}

/// Binding a new name leaves the other names as they were.
proof fn lemma_lookup_push(env: Env, e: (Seq<char>, Seq<char>), n: Seq<char>)
    ensures
        lookup(env.push(e), n) == if e.0 == n { Some(e.1) } else { lookup(env, n) },
{
    assert(env.push(e).drop_last() =~= env);
}

/// A fixed term denotes its value under every agreeing binding.
proof fn lemma_term_fixed(task: Task, schema: Action, t: Term, beta: Env, args: Seq<Seq<char>>, value: Seq<char>)
    requires
        crate::logic::bindings_ok(task.types@, schema.parameters@),
        args.len() == schema.parameters@.len(),
        consistent(beta, schema, args),
        term_fixed(t, beta, value),
        t matches Term::Variable(v) ==> lookup(binding_scope(schema.parameters@), v@) is Some,
    ensures
        crate::logic::term_value(t, action_env(schema, args)) == value,
{
    if let Term::Variable(v) = t {
        let q = lemma_param_of_variable(task, schema, args, v@);
        assert(lookup(beta, schema.parameters@[q].name@) is Some);
    }
}


/// Binds variables by matching `atoms[index..]` against the facts of `state` in turn, and
/// completes each joined binding over the remaining parameters.
fn join_atoms(
    task: &Task,
    state: &State,
    k: usize,
    atoms: &Vec<&Atom>,
    index: usize,
    binding: &mut Vec<(String, String)>,
    pool: &mut CandidatePool,
    limit: usize,
    cands: &mut Vec<usize>,
) -> (r: Result<(), Error>)
    requires
        task_valid(*task),
        k < task.actions@.len(),
        index <= atoms@.len(),
        forall|i: int| 0 <= i < atoms@.len() ==> atom_ok(*task, *#[trigger] atoms@[i], binding_scope(task.actions@[k as int].parameters@)),
        in_params(env_view(old(binding)@), task.actions@[k as int]),
        pool_ok(*task, old(pool).actions@),
        distinct_pool(old(pool).actions@),
        old(pool).actions@.len() <= limit,
        cands_ok(old(pool).actions@, old(cands)@),
    ensures
        final(binding)@ == old(binding)@,
        pool_ok(*task, final(pool).actions@),
        distinct_pool(final(pool).actions@),
        final(pool).actions@.len() <= limit,
        r is Err ==> grounding_exceeds(*task, limit as int),
        extends(old(pool).actions@, final(pool).actions@),
        extends(old(cands)@, final(cands)@),
        cands_ok(final(pool).actions@, final(cands)@),
        r matches Err(e) ==> e.spec_kind() == ErrorKind::GroundingLimit,
        r matches Err(e) ==> e.spec_message() == limit_message(limit as nat),
        r is Ok ==> forall|args: Seq<Seq<char>>|
            args_ok(*task, task.actions@[k as int], args) && #[trigger] agrees(env_view(old(binding)@), task.actions@[k as int], args)
                && rest_hold(state@, atoms@, index as int, action_env(task.actions@[k as int], args))
                ==> offers(final(pool).actions@, final(cands)@, k as int, args),
        forall|i: int| old(pool).actions@.len() <= i < final(pool).actions@.len() ==> (#[trigger] final(pool).actions@[i]).0 == k
            && consistent(env_view(old(binding)@), task.actions@[k as int], final(pool).actions@[i].1.arguments.deep_view())
            && rest_hold(state@, atoms@, index as int, action_env(task.actions@[k as int], final(pool).actions@[i].1.arguments.deep_view())),
        r is Err ==> final(pool).actions@.len() >= limit && exists|args: Seq<Seq<char>>|
            args_ok(*task, task.actions@[k as int], args) && #[trigger] consistent(env_view(old(binding)@), task.actions@[k as int], args)
                && rest_hold(state@, atoms@, index as int, action_env(task.actions@[k as int], args))
                && !pool_keys(final(pool).actions@).contains((k as int, args)),
    decreases atoms@.len() - index,
{
    let ghost schema = task.actions@[k as int];
    let ghost beta = env_view(binding@);
    if index == atoms.len() {
        return complete_binding(task, k, 0, binding, pool, limit, cands);
    }
    let atom = atoms[index];
    let next_index = index + 1;
    let facts = state.atoms();
    proof {
        state.lemma_elements();
        assert(facts@.map_values(|g: GroundAtom| g@) == state.elements());
        assert forall|m2: int| 0 <= m2 < facts@.len() implies state@.contains(#[trigger] facts@[m2]@) by {
            assert(facts@.map_values(|g: GroundAtom| g@)[m2] == facts@[m2]@);
            assert(state.elements().contains(facts@[m2]@));
        }
    }
    let ghost pool0 = pool.actions@;
    let ghost cands0 = cands@;
    let mut m: usize = 0;
    while m < facts.len()
        invariant
            m <= facts@.len(),
            task_valid(*task),
            k < task.actions@.len(),
            schema == task.actions@[k as int],
            index < atoms@.len(),
            next_index == index + 1,
            atom == atoms@[index as int],
            forall|m2: int| 0 <= m2 < facts@.len() ==> state@.contains(#[trigger] facts@[m2]@),
            forall|i: int| pool0.len() <= i < pool.actions@.len() ==> (#[trigger] pool.actions@[i]).0 == k
                && consistent(beta, schema, pool.actions@[i].1.arguments.deep_view())
                && rest_hold(state@, atoms@, index as int, action_env(schema, pool.actions@[i].1.arguments.deep_view())),
            forall|i: int| 0 <= i < atoms@.len() ==> atom_ok(*task, *#[trigger] atoms@[i], binding_scope(task.actions@[k as int].parameters@)),
            binding@ == old(binding)@,
            beta == env_view(binding@),
            in_params(beta, schema),
            pool0 == old(pool).actions@,
            cands0 == old(cands)@,
            pool_ok(*task, pool.actions@),
            distinct_pool(pool.actions@),
            pool.actions@.len() <= limit,
            extends(pool0, pool.actions@),
            extends(cands0, cands@),
            cands_ok(pool.actions@, cands@),
            forall|args: Seq<Seq<char>>|
                args_ok(*task, schema, args) && #[trigger] agrees(beta, schema, args)
                    && rest_hold(state@, atoms@, index + 1, action_env(schema, args))
                    && (exists|m2: int| 0 <= m2 < m && (#[trigger] facts@[m2])@ == ground(*atom, action_env(schema, args)))
                    ==> offers(pool.actions@, cands@, k as int, args),
        decreases facts.len() - m,
    {
        let fact = &facts[m];
        let ghost pool1 = pool.actions@;
        let ghost cands1 = cands@;
        let mut matched = false;
        let mut result: Result<(), Error> = Ok(());
        if fact.predicate == atom.predicate && fact.arguments.len() == atom.terms.len() {
            let mark = binding.len();
            let ok = match_terms(task, k, atom, fact, binding);
            let ghost beta1 = env_view(binding@);
            if ok {
                matched = true;
                result = join_atoms(task, state, k, atoms, next_index, binding, pool, limit, cands);
                proof {
                    assert(state@.contains(fact@));
                    assert forall|args: Seq<Seq<char>>|
                        args_ok(*task, schema, args) && #[trigger] consistent(beta1, schema, args)
                            && rest_hold(state@, atoms@, index + 1, action_env(schema, args))
                        implies consistent(beta, schema, args) && rest_hold(state@, atoms@, index as int, action_env(schema, args)) by {
                        lemma_consistent_keeps(beta, beta1, schema, args);
                        assert(ground(*atom, action_env(schema, args)).1 == fact.arguments.deep_view());
                        assert(ground(*atom, action_env(schema, args)) == fact@);
                    }
                    assert forall|i: int| pool0.len() <= i < pool.actions@.len() implies (#[trigger] pool.actions@[i]).0 == k
                        && consistent(beta, schema, pool.actions@[i].1.arguments.deep_view())
                        && rest_hold(state@, atoms@, index as int, action_env(schema, pool.actions@[i].1.arguments.deep_view())) by {
                        if i < pool1.len() {
                            assert(pool.actions@[i] == pool1[i]);
                        } else {
                            assert(pool_ok(*task, pool.actions@));
                            let args = pool.actions@[i].1.arguments.deep_view();
                            assert(args_ok(*task, schema, args));
                        }
                    }
                    if result is Err {
                        let args = choose|args: Seq<Seq<char>>|
                            args_ok(*task, schema, args) && #[trigger] consistent(beta1, schema, args)
                                && rest_hold(state@, atoms@, index + 1, action_env(schema, args))
                                && !pool_keys(pool.actions@).contains((k as int, args));
                        assert(consistent(beta, schema, args));
                    }
                    if result is Ok {
                        assert forall|args: Seq<Seq<char>>|
                            args_ok(*task, schema, args) && #[trigger] agrees(beta, schema, args)
                                && rest_hold(state@, atoms@, index + 1, action_env(schema, args))
                                && fact@ == ground(*atom, action_env(schema, args))
                            implies offers(pool.actions@, cands@, k as int, args) by {
                            assert(agrees(beta1, schema, args));
                        }
                    }
                }
            }
            binding.truncate(mark);
            proof {
                assert(binding@ =~= old(binding)@);
                if !ok {
                    assert forall|args: Seq<Seq<char>>|
                        args_ok(*task, schema, args) && #[trigger] agrees(beta, schema, args)
                        implies fact@ != ground(*atom, action_env(schema, args)) by {
                    }
                }
            }
        }
        proof {
            assert(extends(pool0, pool.actions@)) by {
                assert forall|i: int| 0 <= i < pool0.len() implies #[trigger] pool.actions@[i] == pool0[i] by {
                    assert(pool.actions@[i] == pool1[i]);
                }
            }
            assert(extends(cands0, cands@)) by {
                assert forall|i: int| 0 <= i < cands0.len() implies #[trigger] cands@[i] == cands0[i] by {
                    assert(cands@[i] == cands1[i]);
                }
            }
        }
        if let Err(e) = result {
            return Err(e);
        }
        proof {
            assert forall|args: Seq<Seq<char>>|
                args_ok(*task, schema, args) && #[trigger] agrees(beta, schema, args)
                    && rest_hold(state@, atoms@, index + 1, action_env(schema, args))
                    && (exists|m2: int| 0 <= m2 < m + 1 && (#[trigger] facts@[m2])@ == ground(*atom, action_env(schema, args)))
                implies offers(pool.actions@, cands@, k as int, args) by {
                let m2 = choose|m2: int| 0 <= m2 < m + 1 && (#[trigger] facts@[m2])@ == ground(*atom, action_env(schema, args));
                if m2 < m {
                    assert(offers(pool1, cands1, k as int, args));
                    lemma_offers_extends(pool1, cands1, pool.actions@, cands@, k as int, args);
                } else {
                    assert(facts@[m2] == fact);
                    if !matched {
                        assert(fact@.1.len() == fact.arguments@.len());
                        assert(ground(*atom, action_env(schema, args)).1.len() == atom.terms@.len());
                    }
                }
            }
        }
        m = m + 1;
    }
    proof {
        assert forall|args: Seq<Seq<char>>|
            args_ok(*task, schema, args) && #[trigger] agrees(beta, schema, args)
                && rest_hold(state@, atoms@, index as int, action_env(schema, args))
            implies offers(pool.actions@, cands@, k as int, args) by {
            let g = ground(*atom, action_env(schema, args));
            assert(state@.contains(ground(*atoms@[index as int], action_env(schema, args))));
            assert(state.elements().contains(g));
            let m2 = choose|m2: int| 0 <= m2 < state.elements().len() && state.elements()[m2] == g;
            assert(facts@.map_values(|g: GroundAtom| g@)[m2] == g);
            assert(facts@[m2]@ == g);
            assert(rest_hold(state@, atoms@, index + 1, action_env(schema, args)));
        }
    }
    Ok(())
}


// ----------------------------------------------------------------------------------------------
// Applicable ground actions
// ----------------------------------------------------------------------------------------------

/// Whether a fact could match `atom`: the same predicate and the same arity.
pub open spec fn fact_like(x: AtomV, atom: Atom) -> bool {
    x.0 == atom.predicate@ && x.1.len() == atom.terms@.len()
}

/// How many of the first `m` facts could match `atom`.
pub open spec fn like_count(es: Seq<AtomV>, atom: Atom, m: int) -> nat
    decreases m,
{
    if m <= 0 {
        0
    } else {
        like_count(es, atom, m - 1) + if fact_like(es[m - 1], atom) { 1nat } else { 0nat }
    }
}

/// How many facts of `st` could match `atom`.
pub open spec fn facts_matching(st: State, atom: Atom) -> nat {
    like_count(st.elements(), atom, st.elements().len() as int)
}

/// The key by which an atom of a join is ordered: how many facts could match it, then its
/// position.
pub open spec fn selectivity_key(st: State, atoms: Seq<&Atom>, x: int) -> (nat, int) {
    (facts_matching(st, *atoms[x]), x)
}

/// Whether one key orders strictly before another, comparing the counts first.
pub open spec fn key_less(a: (nat, int), b: (nat, int)) -> bool {
    a.0 < b.0 || (a.0 == b.0 && a.1 < b.1)
}

/// The number of facts of `state` that could match `atom`: same predicate, same arity.
fn fact_count(state: &State, atom: &Atom) -> (n: usize)
    ensures
        n == facts_matching(*state, *atom),
{
    let facts = state.atoms();
    let ghost e = state.elements();
    let mut n: usize = 0;
    let mut m: usize = 0;
    while m < facts.len()
        invariant
            m <= facts@.len(),
            n <= m,
            facts@.map_values(|g: GroundAtom| g@) == e,
            e == state.elements(),
            n == like_count(e, *atom, m as int),
        decreases facts.len() - m,
    {
        proof {
            assert(facts@[m as int]@ == e[m as int]);
        }
        if facts[m].predicate == atom.predicate && facts[m].arguments.len() == atom.terms.len() {
            n = n + 1;
        }
        m = m + 1;
    }
    n
}

/// The positions of the atoms, those matching the fewest facts of `state` first, and in
/// their own order among equals.
fn selectivity_order(state: &State, atoms: &Vec<&Atom>) -> (order: Vec<usize>)
    ensures
        order@.len() == atoms@.len(),
        forall|j: int| 0 <= j < order@.len() ==> #[trigger] order@[j] < atoms@.len(),
        forall|a: int, b: int| 0 <= a < b < order@.len() ==> key_less(
            selectivity_key(*state, atoms@, #[trigger] order@[a] as int),
            selectivity_key(*state, atoms@, #[trigger] order@[b] as int),
        ),
{
    let mut keyed: Vec<(usize, usize)> = Vec::new();
    let mut i: usize = 0;
    while i < atoms.len()
        invariant
            i <= atoms@.len(),
            keyed@.len() == i,
            forall|j: int| 0 <= j < keyed@.len() ==> (#[trigger] keyed@[j]).1 < i,
            forall|j: int| 0 <= j < keyed@.len() ==> (#[trigger] keyed@[j]).0 == facts_matching(*state, *atoms@[keyed@[j].1 as int]),
            forall|a: int, b: int| 0 <= a < b < keyed@.len() ==> key_less(
                ((#[trigger] keyed@[a]).0 as nat, keyed@[a].1 as int),
                ((#[trigger] keyed@[b]).0 as nat, keyed@[b].1 as int),
            ),
        decreases atoms.len() - i,
    {
        let count = fact_count(state, atoms[i]);
        let mut pos: usize = 0;
        while pos < keyed.len() && keyed[pos].0 <= count
            invariant
                pos <= keyed@.len(),
                forall|j: int| 0 <= j < pos ==> (#[trigger] keyed@[j]).0 <= count,
            decreases keyed.len() - pos,
        {
            pos = pos + 1;
        }
        let ghost before = keyed@;
        proof {
            assert forall|b: int| pos <= b < before.len() implies (#[trigger] before[b]).0 > count by {
                if b > pos {
                    assert(key_less((before[pos as int].0 as nat, before[pos as int].1 as int), (before[b].0 as nat, before[b].1 as int)));
                }
            }
        }
        keyed.insert(pos, (count, i));
        proof {
            assert forall|j: int| 0 <= j < keyed@.len() implies (#[trigger] keyed@[j]).1 < i + 1 && keyed@[j].0 == facts_matching(
                *state,
                *atoms@[keyed@[j].1 as int],
            ) by {
                if j < pos {
                    assert(keyed@[j] == before[j]);
                } else if j > pos {
                    assert(keyed@[j] == before[j - 1]);
                }
            }
            assert forall|a: int, b: int| 0 <= a < b < keyed@.len() implies key_less(
                ((#[trigger] keyed@[a]).0 as nat, keyed@[a].1 as int),
                ((#[trigger] keyed@[b]).0 as nat, keyed@[b].1 as int),
            ) by {
                if a < pos {
                    assert(keyed@[a] == before[a]);
                }
                if a > pos {
                    assert(keyed@[a] == before[a - 1]);
                }
                if b < pos {
                    assert(keyed@[b] == before[b]);
                }
                if b > pos {
                    assert(keyed@[b] == before[b - 1]);
                }
            }
        }
        i = i + 1;
    }
    let mut order: Vec<usize> = Vec::new();
    let mut j: usize = 0;
    while j < keyed.len()
        invariant
            j <= keyed@.len(),
            keyed@.len() == atoms@.len(),
            order@.len() == j,
            forall|j2: int| 0 <= j2 < keyed@.len() ==> (#[trigger] keyed@[j2]).1 < atoms@.len(),
            forall|j2: int| 0 <= j2 < j ==> #[trigger] order@[j2] == keyed@[j2].1,
        decreases keyed.len() - j,
    {
        order.push(keyed[j].1);
        j = j + 1;
    }
    proof {
        assert forall|a: int, b: int| 0 <= a < b < order@.len() implies key_less(
            selectivity_key(*state, atoms@, #[trigger] order@[a] as int),
            selectivity_key(*state, atoms@, #[trigger] order@[b] as int),
        ) by {
            assert(order@[a] == keyed@[a].1 && order@[b] == keyed@[b].1);
            assert(key_less((keyed@[a].0 as nat, keyed@[a].1 as int), (keyed@[b].0 as nat, keyed@[b].1 as int)));
        }
    }
    order
}

/// The position of the object named `name` among the declared objects; the number of
/// objects if none is.
fn object_position(task: &Task, name: &String) -> (r: usize)
    ensures
        r == object_index(*task, name@),
        r <= task.objects@.len(),
        forall|i: int| 0 <= i < r ==> (#[trigger] task.objects@[i]).name@ != name@,
        r < task.objects@.len() ==> task.objects@[r as int].name@ == name@,
{
    let mut i: usize = 0;
    while i < task.objects.len()
        invariant
            i <= task.objects@.len(),
            forall|j: int| 0 <= j < i ==> (#[trigger] task.objects@[j]).name@ != name@,
        decreases task.objects.len() - i,
    {
        if task.objects[i].name == *name {
            proof {
                let w = choose|w: int| 0 <= w < task.objects@.len() && (#[trigger] task.objects@[w]).name@ == name@
                    && forall|j: int| 0 <= j < w ==> task.objects@[j].name@ != name@;
                if w < i {
                } else if w > i {
                    assert(task.objects@[i as int].name@ != name@);
                }
            }
            return i;
        }
        i = i + 1;
    }
    i
}

/// Whether position list `x` orders before `y`, comparing from position `i` on: at the first
/// difference, the smaller position first; a proper prefix before its extensions.
pub open spec fn positions_before(x: Seq<usize>, y: Seq<usize>, i: int) -> bool
    decreases x.len() - i,
{
    if i < 0 || i >= x.len() || i >= y.len() {
        x.len() < y.len()
    } else if x[i] != y[i] {
        x[i] < y[i]
    } else {
        positions_before(x, y, i + 1)
    }
}

/// Whether key `a` orders strictly before key `b`: by schema index, then by positions.
pub open spec fn candidate_before(a: (usize, Seq<usize>), b: (usize, Seq<usize>)) -> bool {
    a.0 < b.0 || (a.0 == b.0 && positions_before(a.1, b.1, 0))
}

/// The position of the first object named `name`, or the number of objects if none is.
pub open spec fn object_index(task: Task, name: Seq<char>) -> int {
    if exists|i: int| 0 <= i < task.objects@.len() && (#[trigger] task.objects@[i]).name@ == name {
        choose|i: int| 0 <= i < task.objects@.len() && (#[trigger] task.objects@[i]).name@ == name
            && forall|j: int| 0 <= j < i ==> task.objects@[j].name@ != name
    } else {
        task.objects@.len() as int
    }
}

/// The key by which applicable candidates are ordered: the schema index, then the positions
/// of the arguments among the declared objects.
pub open spec fn candidate_key(task: Task, e: (usize, GroundAction)) -> (usize, Seq<usize>) {
    (e.0, Seq::new(e.1.arguments@.len(), |a: int| object_index(task, e.1.arguments@[a]@) as usize))
}

proof fn lemma_positions_irreflexive(x: Seq<usize>, i: int)
    requires
        0 <= i,
    ensures
        !positions_before(x, x, i),
    decreases x.len() - i,
{
    if i < x.len() {
        lemma_positions_irreflexive(x, i + 1);
    }
}

proof fn lemma_positions_trans(x: Seq<usize>, y: Seq<usize>, z: Seq<usize>, i: int)
    requires
        0 <= i,
        positions_before(x, y, i),
        positions_before(y, z, i),
    ensures
        positions_before(x, z, i),
    decreases x.len() - i,
{
    if i < x.len() && i < y.len() && i < z.len() && x[i] == y[i] && y[i] == z[i] {
        lemma_positions_trans(x, y, z, i + 1);
    }
}

proof fn lemma_candidate_before_order(a: (usize, Seq<usize>), b: (usize, Seq<usize>), c: (usize, Seq<usize>))
    ensures
        !candidate_before(a, a),
        candidate_before(a, b) && candidate_before(b, c) ==> candidate_before(a, c),
{
    lemma_positions_irreflexive(a.1, 0);
    if candidate_before(a, b) && candidate_before(b, c) && a.0 == b.0 && b.0 == c.0 {
        lemma_positions_trans(a.1, b.1, c.1, 0);
    }
}

/// Whether `a` orders strictly before `b`, comparing schema indices and then argument
/// positions lexicographically.
fn key_before(a: &(usize, Vec<usize>), b: &(usize, Vec<usize>)) -> (r: bool)
    ensures
        r == candidate_before((a.0, a.1@), (b.0, b.1@)),
{
    if a.0 != b.0 {
        return a.0 < b.0;
    }
    let mut i: usize = 0;
    while i < a.1.len() && i < b.1.len()
        invariant
            i <= a.1@.len(),
            i <= b.1@.len(),
            a.0 == b.0,
            positions_before(a.1@, b.1@, 0) == positions_before(a.1@, b.1@, i as int),
        decreases a.1.len() - i,
    {
        if a.1[i] != b.1[i] {
            proof {
                assert(positions_before(a.1@, b.1@, i as int) == (a.1@[i as int] < b.1@[i as int]));
            }
            return a.1[i] < b.1[i];
        }
        i = i + 1;
    }
    a.1.len() < b.1.len()
}

/// The atoms search joins with the facts of a state for schema `k`: those its precondition
/// reaches through conjunctions, up to the join limit.
pub open spec fn join_atoms_of(task: Task, k: int) -> Seq<Atom> {
    fill(conj_seq(task.actions@[k].precondition), MAX_JOIN_ATOMS as int)
}

/// The candidates search generates in state `st`: every well-typed instance whose joined
/// atoms all hold in `st`, as its schema index and arguments.
pub open spec fn join_candidates(task: Task, st: Set<AtomV>) -> Set<(int, Seq<Seq<char>>)> {
    Set::new(|c: (int, Seq<Seq<char>>)| {
        &&& 0 <= c.0 < task.actions@.len()
        &&& args_ok(task, task.actions@[c.0], c.1)
        &&& forall|j: int| 0 <= j < join_atoms_of(task, c.0).len() ==> st.contains(
            ground(#[trigger] join_atoms_of(task, c.0)[j], action_env(task.actions@[c.0], c.1)),
        )
    })
}

/// The schema indices and arguments of the pooled candidates.
pub open spec fn pool_keys(pool: Seq<(usize, GroundAction)>) -> Set<(int, Seq<Seq<char>>)> {
    Set::new(|c: (int, Seq<Seq<char>>)| exists|i: int| 0 <= i < pool.len() && #[trigger] pool_key(pool[i]) == c)
}

/// The candidates generated in any of the states `ss`.
pub open spec fn candidates_union(task: Task, ss: Seq<Set<AtomV>>) -> Set<(int, Seq<Seq<char>>)> {
    Set::new(|c: (int, Seq<Seq<char>>)| exists|i: int| 0 <= i < ss.len() && #[trigger] join_candidates(task, ss[i]).contains(c))
}

/// Whether expanding the states `ss` generates at most `limit` distinct candidates.
pub open spec fn within_budget(task: Task, ss: Seq<Set<AtomV>>, limit: int) -> bool {
    candidates_union(task, ss).finite() && candidates_union(task, ss).len() <= limit
}

/// Pooled candidates stay pooled as the pool grows.
proof fn lemma_pool_keys_extend(p0: Seq<(usize, GroundAction)>, p1: Seq<(usize, GroundAction)>)
    requires
        extends(p0, p1),
    ensures
        pool_keys(p0).subset_of(pool_keys(p1)),
{
    assert forall|c: (int, Seq<Seq<char>>)| pool_keys(p0).contains(c) implies pool_keys(p1).contains(c) by {
        let i = choose|i: int| 0 <= i < p0.len() && #[trigger] pool_key(p0[i]) == c;
        assert(pool_key(p1[i]) == c);
    }
}

/// States whose candidates are all pooled fit the budget the pool keeps to.
proof fn lemma_within_budget(task: Task, ss: Seq<Set<AtomV>>, pool: Seq<(usize, GroundAction)>, limit: int)
    requires
        pool.len() <= limit,
        forall|i: int| 0 <= i < ss.len() ==> join_candidates(task, #[trigger] ss[i]).subset_of(pool_keys(pool)),
    ensures
        within_budget(task, ss, limit),
{
    let keys = pool.map_values(|e: (usize, GroundAction)| pool_key(e));
    assert(pool_keys(pool) =~= keys.to_set()) by {
        assert forall|c: (int, Seq<Seq<char>>)| pool_keys(pool).contains(c) implies keys.to_set().contains(c) by {
            let i = choose|i: int| 0 <= i < pool.len() && #[trigger] pool_key(pool[i]) == c;
            assert(keys[i] == c);
        }
        assert forall|c: (int, Seq<Seq<char>>)| keys.to_set().contains(c) implies pool_keys(pool).contains(c) by {
            let i = choose|i: int| 0 <= i < keys.len() && keys[i] == c;
            assert(pool_key(pool[i]) == c);
        }
    }
    keys.lemma_cardinality_of_set();
    vstd::seq_lib::seq_to_set_is_finite(keys);
    assert(candidates_union(task, ss).subset_of(pool_keys(pool))) by {
        assert forall|c: (int, Seq<Seq<char>>)| candidates_union(task, ss).contains(c) implies pool_keys(pool).contains(c) by {
            let i = choose|i: int| 0 <= i < ss.len() && #[trigger] join_candidates(task, ss[i]).contains(c);
            assert(join_candidates(task, ss[i]).subset_of(pool_keys(pool)));
        }
    }
    vstd::set_lib::lemma_len_subset(candidates_union(task, ss), pool_keys(pool));
}

/// After expanding state `head`, the pool holds only candidates generated in the states up to it.
proof fn lemma_union_grow(task: Task, sv: Seq<Set<AtomV>>, head: int, p0: Seq<(usize, GroundAction)>, p1: Seq<(usize, GroundAction)>)
    requires
        0 <= head < sv.len(),
        extends(p0, p1),
        pool_keys(p0).subset_of(candidates_union(task, sv.take(head))),
        forall|i: int| p0.len() <= i < p1.len() ==> join_candidates(task, sv[head]).contains(pool_key(#[trigger] p1[i])),
    ensures
        pool_keys(p1).subset_of(candidates_union(task, sv.take(head + 1))),
{
    assert forall|c: (int, Seq<Seq<char>>)| pool_keys(p1).contains(c) implies candidates_union(task, sv.take(head + 1)).contains(c) by {
        let i = choose|i: int| 0 <= i < p1.len() && #[trigger] pool_key(p1[i]) == c;
        if i < p0.len() {
            assert(pool_key(p0[i]) == c);
            assert(pool_keys(p0).contains(c));
            let j = choose|j: int| 0 <= j < sv.take(head).len() && #[trigger] join_candidates(task, sv.take(head)[j]).contains(c);
            assert(sv.take(head + 1)[j] == sv.take(head)[j]);
        } else {
            assert(sv.take(head + 1)[head] == sv[head]);
        }
    }
}

/// A full pool of distinct candidates, all generated in `ss`, together with one more candidate
/// generated there, is over the budget.
proof fn lemma_over_budget(task: Task, ss: Seq<Set<AtomV>>, pool: Seq<(usize, GroundAction)>, c: (int, Seq<Seq<char>>), limit: int)
    requires
        distinct_pool(pool),
        pool.len() >= limit,
        pool_keys(pool).subset_of(candidates_union(task, ss)),
        candidates_union(task, ss).contains(c),
        !pool_keys(pool).contains(c),
    ensures
        !within_budget(task, ss, limit),
{
    let keys = pool.map_values(|e: (usize, GroundAction)| pool_key(e));
    assert(pool_keys(pool) =~= keys.to_set()) by {
        assert forall|x: (int, Seq<Seq<char>>)| pool_keys(pool).contains(x) implies keys.to_set().contains(x) by {
            let i = choose|i: int| 0 <= i < pool.len() && #[trigger] pool_key(pool[i]) == x;
            assert(keys[i] == x);
        }
        assert forall|x: (int, Seq<Seq<char>>)| keys.to_set().contains(x) implies pool_keys(pool).contains(x) by {
            let i = choose|i: int| 0 <= i < keys.len() && keys[i] == x;
            assert(pool_key(pool[i]) == x);
        }
    }
    assert(keys.no_duplicates()) by {
        assert forall|a: int, b: int| 0 <= a < keys.len() && 0 <= b < keys.len() && a != b implies keys[a] != keys[b] by {
            assert(keys[a] == pool_key(pool[a]) && keys[b] == pool_key(pool[b]));
        }
    }
    keys.unique_seq_to_set();
    vstd::seq_lib::seq_to_set_is_finite(keys);
    let more = pool_keys(pool).insert(c);
    if candidates_union(task, ss).finite() {
        vstd::set_lib::lemma_len_subset(more, candidates_union(task, ss));
    }
}

/// Whether the pooled candidate is applicable in `st`.
pub open spec fn candidate_applicable(task: Task, st: Set<AtomV>, cand: (usize, GroundAction)) -> bool {
    applicable(task, st, task.actions@[cand.0 as int], cand.1.arguments.deep_view())
}

/// A sequence of `n` distinct positions below `n` holds every position below `n`.
proof fn lemma_positions_onto(order: Seq<usize>, n: int, o: int)
    requires
        order.len() == n,
        forall|j: int| 0 <= j < n ==> (#[trigger] order[j] as int) < n,
        forall|a: int, b: int| 0 <= a < b < n ==> #[trigger] order[a] != #[trigger] order[b],
        0 <= o < n,
    ensures
        exists|j: int| 0 <= j < n && order[j] as int == o,
{
    let v = order.map_values(|x: usize| x as int);
    assert(v.no_duplicates()) by {
        assert forall|a: int, b: int| 0 <= a < v.len() && 0 <= b < v.len() && a != b implies v[a] != v[b] by {
            if a < b {
                assert(order[a] != order[b]);
            } else {
                assert(order[b] != order[a]);
            }
        }
    }
    v.unique_seq_to_set();
    vstd::seq_lib::seq_to_set_is_finite(v);
    vstd::set_lib::lemma_int_range(0, n);
    assert(v.to_set().subset_of(vstd::set_lib::set_int_range(0, n))) by {
        assert forall|x: int| v.to_set().contains(x) implies vstd::set_lib::set_int_range(0, n).contains(x) by {
            let j = choose|j: int| 0 <= j < v.len() && v[j] == x;
            assert(v[j] == order[j] as int);
        }
    }
    vstd::set_lib::lemma_subset_equality(v.to_set(), vstd::set_lib::set_int_range(0, n));
    assert(vstd::set_lib::set_int_range(0, n).contains(o));
    assert(v.to_set().contains(o));
    let j = choose|j: int| 0 <= j < v.len() && v[j] == o;
    assert(v[j] == order[j] as int);
}

/// The pooled ground actions applicable in `state`, grounding lazily: each schema's
/// arguments come from joining the atoms its precondition requires with the facts of the
/// state, then from every object of the right type for the parameters left unbound.
/// Candidates are ordered by schema and then by the declaration order of their arguments.
fn applicable_actions(task: &Task, state: &State, limit: usize, pool: &mut CandidatePool) -> (r: Result<Vec<usize>, Error>)
    requires
        task_valid(*task),
        pool_ok(*task, old(pool).actions@),
        distinct_pool(old(pool).actions@),
        old(pool).actions@.len() <= limit,
    ensures
        pool_ok(*task, final(pool).actions@),
        distinct_pool(final(pool).actions@),
        final(pool).actions@.len() <= limit,
        r is Err ==> grounding_exceeds(*task, limit as int),
        extends(old(pool).actions@, final(pool).actions@),
        r matches Err(e) ==> e.spec_kind() == ErrorKind::GroundingLimit,
        r matches Err(e) ==> e.spec_message() == limit_message(limit as nat),
        r matches Ok(c) ==> cands_ok(final(pool).actions@, c@),
        r matches Ok(c) ==> forall|i: int| 0 <= i < c@.len() ==> candidate_applicable(*task, state@, final(pool).actions@[#[trigger] c@[i] as int]),
        r matches Ok(c) ==> forall|k: int, args: Seq<Seq<char>>|
            0 <= k < task.actions@.len() && #[trigger] applicable(*task, state@, task.actions@[k], args)
                ==> offers(final(pool).actions@, c@, k, args),
        r is Ok ==> join_candidates(*task, state@).subset_of(pool_keys(final(pool).actions@)),
        forall|i: int| old(pool).actions@.len() <= i < final(pool).actions@.len()
            ==> join_candidates(*task, state@).contains(pool_key(#[trigger] final(pool).actions@[i])),
        r is Err ==> final(pool).actions@.len() >= limit && exists|c: (int, Seq<Seq<char>>)|
            #[trigger] join_candidates(*task, state@).contains(c) && !pool_keys(final(pool).actions@).contains(c),
        r matches Ok(c) ==> c@.no_duplicates(),
        r matches Ok(c) ==> forall|a: int, b: int| 0 <= a < b < c@.len() ==> !candidate_before(
            candidate_key(*task, final(pool).actions@[#[trigger] c@[b] as int]),
            candidate_key(*task, final(pool).actions@[#[trigger] c@[a] as int]),
        ),
{
    let mut all: Vec<usize> = Vec::new();
    let mut k: usize = 0;
    while k < task.actions.len()
        invariant
            k <= task.actions@.len(),
            task_valid(*task),
            pool_ok(*task, pool.actions@),
            distinct_pool(pool.actions@),
            pool.actions@.len() <= limit,
            extends(old(pool).actions@, pool.actions@),
            cands_ok(pool.actions@, all@),
            forall|k2: int, args: Seq<Seq<char>>|
                0 <= k2 < k && #[trigger] applicable(*task, state@, task.actions@[k2], args)
                    ==> offers(pool.actions@, all@, k2, args),
            forall|c: (int, Seq<Seq<char>>)| #[trigger] join_candidates(*task, state@).contains(c) && c.0 < k
                ==> pool_keys(pool.actions@).contains(c),
            forall|i: int| old(pool).actions@.len() <= i < pool.actions@.len()
                ==> join_candidates(*task, state@).contains(pool_key(#[trigger] pool.actions@[i])),
        decreases task.actions.len() - k,
    {
        let schema = &task.actions[k];
        let ghost scope = binding_scope(schema.parameters@);
        proof {
            assert(action_ok(*task, *schema));
        }
        let mut found: Vec<&Atom> = Vec::new();
        positive_conjuncts(&schema.precondition, &mut found);
        let order = selectivity_order(state, &found);
        let mut atoms: Vec<&Atom> = Vec::new();
        let mut j: usize = 0;
        while j < order.len()
            invariant
                j <= order@.len(),
                atoms@.len() == j,
                forall|j2: int| 0 <= j2 < order@.len() ==> #[trigger] order@[j2] < found@.len(),
                forall|j2: int| 0 <= j2 < j ==> #[trigger] atoms@[j2] == found@[order@[j2] as int],
            decreases order.len() - j,
        {
            atoms.push(found[order[j]]);
            j = j + 1;
        }
        proof {
            assert forall|i: int| 0 <= i < atoms@.len() implies atom_ok(*task, *#[trigger] atoms@[i], scope)
                && conj_atom(schema.precondition, *atoms@[i]) by {
                assert(atoms@[i] == found@[order@[i] as int]);
                assert(conj_atom(schema.precondition, *found@[order@[i] as int]));
                lemma_conj_atom_ok(*task, schema.precondition, *atoms@[i], scope);
            }
        }
        let mut binding: Vec<(String, String)> = Vec::new();
        let ghost pool1 = pool.actions@;
        let ghost all1 = all@;
        proof {
            assert(in_params(env_view(binding@), *schema));
        }
        proof {
            assert forall|a2: int, b2: int| 0 <= a2 < b2 < order@.len() implies #[trigger] order@[a2] != #[trigger] order@[b2] by {
                assert(key_less(
                    selectivity_key(*state, found@, order@[a2] as int),
                    selectivity_key(*state, found@, order@[b2] as int),
                ));
            }
            assert forall|args: Seq<Seq<char>>| rest_hold(state@, atoms@, 0, action_env(*schema, args)) implies forall|j: int|
                0 <= j < join_atoms_of(*task, k as int).len() ==> state@.contains(
                    ground(#[trigger] join_atoms_of(*task, k as int)[j], action_env(task.actions@[k as int], args)),
                ) by {
                assert forall|j: int| 0 <= j < join_atoms_of(*task, k as int).len() implies state@.contains(
                    ground(#[trigger] join_atoms_of(*task, k as int)[j], action_env(task.actions@[k as int], args)),
                ) by {
                    assert(atoms_of(found@)[j] == *found@[j]);
                    lemma_positions_onto(order@, found@.len() as int, j);
                    let i = choose|i: int| 0 <= i < found@.len() && order@[i] as int == j;
                    assert(atoms@[i] == found@[order@[i] as int]);
                }
            }
        }
        let ghost pool_k = pool.actions@;
        match join_atoms(task, state, k, &atoms, 0, &mut binding, pool, limit, &mut all) {
            Ok(()) => {},
            Err(e) => {
                proof {
                    let args = choose|args: Seq<Seq<char>>|
                        args_ok(*task, task.actions@[k as int], args) && #[trigger] consistent(env_view(binding@), task.actions@[k as int], args)
                            && rest_hold(state@, atoms@, 0, action_env(task.actions@[k as int], args))
                            && !pool_keys(pool.actions@).contains((k as int, args));
                    assert(join_candidates(*task, state@).contains((k as int, args)));
                    assert(extends(old(pool).actions@, pool.actions@)) by {
                        assert forall|i: int| 0 <= i < old(pool).actions@.len() implies #[trigger] pool.actions@[i] == old(pool).actions@[i] by {
                            assert(pool.actions@[i] == pool1[i]);
                        }
                    }
                }
                return Err(e);
            }
        }
        proof {
            assert forall|i: int| old(pool).actions@.len() <= i < pool.actions@.len()
                implies join_candidates(*task, state@).contains(pool_key(#[trigger] pool.actions@[i])) by {
                if i < pool_k.len() {
                    assert(pool.actions@[i] == pool_k[i]);
                } else {
                    let args = pool.actions@[i].1.arguments.deep_view();
                    assert(pool_ok(*task, pool.actions@));
                    assert(rest_hold(state@, atoms@, 0, action_env(task.actions@[k as int], args)));
                }
            }
            assert(extends(old(pool).actions@, pool.actions@)) by {
                assert forall|i: int| 0 <= i < old(pool).actions@.len() implies #[trigger] pool.actions@[i] == old(pool).actions@[i] by {
                    assert(pool.actions@[i] == pool1[i]);
                }
            }
            assert forall|k2: int, args: Seq<Seq<char>>|
                0 <= k2 < k + 1 && #[trigger] applicable(*task, state@, task.actions@[k2], args)
                implies offers(pool.actions@, all@, k2, args) by {
                if k2 < k {
                    assert(offers(pool1, all1, k2, args));
                    lemma_offers_extends(pool1, all1, pool.actions@, all@, k2, args);
                } else {
                    let aenv = action_env(*schema, args);
                    assert(agrees(env_view(binding@), *schema, args));
                    assert forall|i: int| 0 <= i < atoms@.len() implies state@.contains(ground(*#[trigger] atoms@[i], aenv)) by {
                        lemma_conj_atom_holds(task.objects@, state@, schema.precondition, *atoms@[i], aenv);
                    }
                    assert(rest_hold(state@, atoms@, 0, aenv));
                }
            }
            assert forall|c: (int, Seq<Seq<char>>)| #[trigger] join_candidates(*task, state@).contains(c) && c.0 < k + 1
                implies pool_keys(pool.actions@).contains(c) by {
                if c.0 < k {
                    assert(pool_keys(pool1).contains(c));
                    let i = choose|i: int| 0 <= i < pool1.len() && #[trigger] pool_key(pool1[i]) == c;
                    assert(pool_key(pool.actions@[i]) == c);
                } else {
                    let args = c.1;
                    let aenv = action_env(*schema, args);
                    assert(agrees(env_view(binding@), *schema, args));
                    assert forall|i: int| 0 <= i < atoms@.len() implies state@.contains(ground(*#[trigger] atoms@[i], aenv)) by {
                        let o = order@[i] as int;
                        assert(atoms@[i] == found@[o]);
                        assert(atoms_of(found@)[o] == *found@[o]);
                        assert(join_atoms_of(*task, c.0)[o] == *atoms@[i]);
                    }
                    assert(rest_hold(state@, atoms@, 0, aenv));
                    assert(offers(pool.actions@, all@, k as int, args));
                    let i2 = choose|i2: int|
                        0 <= i2 < all@.len() && (#[trigger] all@[i2] as int) < pool.actions@.len() && pool.actions@[all@[i2] as int].0 == k
                            && pool.actions@[all@[i2] as int].1.arguments.deep_view() == args;
                    assert(pool_key(pool.actions@[all@[i2] as int]) == c);
                }
            }
        }
        k = k + 1;
    }
    // Keep the candidates whose whole precondition holds, in key order, each once.
    let mut keyed: Vec<((usize, Vec<usize>), usize)> = Vec::new();
    let mut i: usize = 0;
    while i < all.len()
        invariant
            i <= all@.len(),
            task_valid(*task),
            pool_ok(*task, pool.actions@),
            distinct_pool(pool.actions@),
            pool.actions@.len() <= limit,
            cands_ok(pool.actions@, all@),
            forall|j: int| 0 <= j < keyed@.len() ==> (#[trigger] keyed@[j]).1 < pool.actions@.len()
                && candidate_applicable(*task, state@, pool.actions@[keyed@[j].1 as int]),
            forall|i2: int| 0 <= i2 < i && candidate_applicable(*task, state@, pool.actions@[#[trigger] all@[i2] as int])
                ==> exists|j: int| 0 <= j < keyed@.len() && keyed@[j].1 == all@[i2],
            forall|j: int| 0 <= j < keyed@.len() ==> ((#[trigger] keyed@[j]).0.0, keyed@[j].0.1@) == candidate_key(
                *task,
                pool.actions@[keyed@[j].1 as int],
            ),
            forall|a: int, b: int| 0 <= a < b < keyed@.len() ==> (#[trigger] keyed@[a]).1 != (#[trigger] keyed@[b]).1
                && !candidate_before((keyed@[b].0.0, keyed@[b].0.1@), (keyed@[a].0.0, keyed@[a].0.1@)),
        decreases all.len() - i,
    {
        let c = all[i];
        let schema_index = pool.actions[c].0;
        let schema = &task.actions[schema_index];
        let ground = &pool.actions[c].1;
        proof {
            assert(action_ok(*task, *schema));
        }
        let mut env = action_environment(schema, &ground.arguments);
        proof {
            assert(same_names(env_view(env@), binding_scope(schema.parameters@)));
        }
        let holds_now = eval(task, state, &schema.precondition, &mut env, Ghost(binding_scope(schema.parameters@)));
        if holds_now {
            let mut present = false;
            let mut j: usize = 0;
            while j < keyed.len()
                invariant_except_break
                    !present,
                invariant
                    j <= keyed@.len(),
                    forall|j2: int| 0 <= j2 < j ==> (#[trigger] keyed@[j2]).1 != c,
                ensures
                    present ==> exists|j2: int| 0 <= j2 < keyed@.len() && keyed@[j2].1 == c,
                    !present ==> forall|j2: int| 0 <= j2 < keyed@.len() ==> (#[trigger] keyed@[j2]).1 != c,
                decreases keyed.len() - j,
            {
                if keyed[j].1 == c {
                    present = true;
                    break;
                }
                j = j + 1;
            }
            if !present {
                let mut positions: Vec<usize> = Vec::new();
                let mut a: usize = 0;
                while a < ground.arguments.len()
                    invariant
                        a <= ground.arguments@.len(),
                        positions@.len() == a,
                        forall|x: int| 0 <= x < a ==> #[trigger] positions@[x] == object_index(*task, ground.arguments@[x]@) as usize,
                    decreases ground.arguments.len() - a,
                {
                    positions.push(object_position(task, &ground.arguments[a]));
                    a = a + 1;
                }
                let key = (schema_index, positions);
                let ghost kv = (key.0, key.1@);
                proof {
                    assert(key.1@ =~= candidate_key(*task, pool.actions@[c as int]).1);
                }
                let mut pos: usize = 0;
                while pos < keyed.len() && !key_before(&key, &keyed[pos].0)
                    invariant
                        pos <= keyed@.len(),
                        kv == (key.0, key.1@),
                        forall|j2: int| 0 <= j2 < pos ==> !candidate_before(kv, ((#[trigger] keyed@[j2]).0.0, keyed@[j2].0.1@)),
                    decreases keyed.len() - pos,
                {
                    pos = pos + 1;
                }
                let ghost before = keyed@;
                keyed.insert(pos, (key, c));
                proof {
                    assert forall|j2: int| 0 <= j2 < keyed@.len() implies (#[trigger] keyed@[j2]).1 < pool.actions@.len()
                        && candidate_applicable(*task, state@, pool.actions@[keyed@[j2].1 as int]) by {
                        if j2 < pos {
                            assert(keyed@[j2] == before[j2]);
                        } else if j2 > pos {
                            assert(keyed@[j2] == before[j2 - 1]);
                        }
                    }
                    assert forall|i2: int| 0 <= i2 < i + 1 && candidate_applicable(*task, state@, pool.actions@[#[trigger] all@[i2] as int])
                        implies exists|j2: int| 0 <= j2 < keyed@.len() && keyed@[j2].1 == all@[i2] by {
                        if i2 < i {
                            let j3 = choose|j3: int| 0 <= j3 < before.len() && before[j3].1 == all@[i2];
                            if j3 < pos {
                                assert(keyed@[j3] == before[j3]);
                            } else {
                                assert(keyed@[j3 + 1] == before[j3]);
                            }
                        } else {
                            assert(keyed@[pos as int].1 == all@[i2]);
                        }
                    }
                    assert forall|j2: int| 0 <= j2 < keyed@.len() implies ((#[trigger] keyed@[j2]).0.0, keyed@[j2].0.1@) == candidate_key(
                        *task,
                        pool.actions@[keyed@[j2].1 as int],
                    ) by {
                        if j2 < pos {
                            assert(keyed@[j2] == before[j2]);
                        } else if j2 > pos {
                            assert(keyed@[j2] == before[j2 - 1]);
                        }
                    }
                    assert forall|a2: int, b2: int| 0 <= a2 < b2 < keyed@.len() implies (#[trigger] keyed@[a2]).1 != (#[trigger] keyed@[b2]).1
                        && !candidate_before((keyed@[b2].0.0, keyed@[b2].0.1@), (keyed@[a2].0.0, keyed@[a2].0.1@)) by {
                        let ka = (keyed@[a2].0.0, keyed@[a2].0.1@);
                        let kb = (keyed@[b2].0.0, keyed@[b2].0.1@);
                        if b2 < pos {
                            assert(keyed@[a2] == before[a2] && keyed@[b2] == before[b2]);
                        } else if b2 == pos {
                            assert(keyed@[a2] == before[a2]);
                        } else if a2 > pos {
                            assert(keyed@[a2] == before[a2 - 1] && keyed@[b2] == before[b2 - 1]);
                        } else if a2 < pos {
                            assert(keyed@[a2] == before[a2] && keyed@[b2] == before[b2 - 1]);
                        } else {
                            assert(keyed@[b2] == before[b2 - 1]);
                            let kp = (before[pos as int].0.0, before[pos as int].0.1@);
                            assert(candidate_before(kv, kp));
                            lemma_candidate_before_order(kb, kv, kp);
                            if b2 - 1 > pos {
                                assert(!candidate_before(kb, kp));
                            } else {
                                lemma_candidate_before_order(kp, kp, kp);
                            }
                        }
                    }
                }
            }
        } else {
            proof {
                assert(!candidate_applicable(*task, state@, pool.actions@[all@[i as int] as int]));
            }
        }
        i = i + 1;
    }
    let mut result: Vec<usize> = Vec::new();
    let mut j: usize = 0;
    while j < keyed.len()
        invariant
            j <= keyed@.len(),
            result@.len() == j,
            forall|j2: int| 0 <= j2 < j ==> result@[j2] == (#[trigger] keyed@[j2]).1,
            forall|j2: int| 0 <= j2 < keyed@.len() ==> ((#[trigger] keyed@[j2]).0.0, keyed@[j2].0.1@) == candidate_key(
                *task,
                pool.actions@[keyed@[j2].1 as int],
            ),
            forall|a: int, b: int| 0 <= a < b < keyed@.len() ==> (#[trigger] keyed@[a]).1 != (#[trigger] keyed@[b]).1
                && !candidate_before((keyed@[b].0.0, keyed@[b].0.1@), (keyed@[a].0.0, keyed@[a].0.1@)),
        decreases keyed.len() - j,
    {
        result.push(keyed[j].1);
        j = j + 1;
    }
    proof {
        assert forall|i2: int| 0 <= i2 < result@.len() implies (#[trigger] result@[i2] as int) < pool.actions@.len()
            && candidate_applicable(*task, state@, pool.actions@[result@[i2] as int]) by {
            assert(result@[i2] == keyed@[i2].1);
        }
        assert forall|k2: int, args: Seq<Seq<char>>|
            0 <= k2 < task.actions@.len() && #[trigger] applicable(*task, state@, task.actions@[k2], args)
            implies offers(pool.actions@, result@, k2, args) by {
            assert(offers(pool.actions@, all@, k2, args));
            let i2 = choose|i2: int|
                0 <= i2 < all@.len() && (#[trigger] all@[i2] as int) < pool.actions@.len() && pool.actions@[all@[i2] as int].0 == k2
                    && pool.actions@[all@[i2] as int].1.arguments.deep_view() == args;
            assert(candidate_applicable(*task, state@, pool.actions@[all@[i2] as int]));
            let j2 = choose|j2: int| 0 <= j2 < keyed@.len() && keyed@[j2].1 == all@[i2];
            assert(result@[j2] == keyed@[j2].1);
        }
        assert(result@.no_duplicates()) by {
            assert forall|a: int, b: int| 0 <= a < result@.len() && 0 <= b < result@.len() && a != b implies result@[a] != result@[b] by {
                assert(result@[a] == keyed@[a].1 && result@[b] == keyed@[b].1);
                if a < b {
                    assert(keyed@[a].1 != keyed@[b].1);
                } else {
                    assert(keyed@[b].1 != keyed@[a].1);
                }
            }
        }
        assert forall|a: int, b: int| 0 <= a < b < result@.len() implies !candidate_before(
            candidate_key(*task, pool.actions@[#[trigger] result@[b] as int]),
            candidate_key(*task, pool.actions@[#[trigger] result@[a] as int]),
        ) by {
            assert(result@[a] == keyed@[a].1 && result@[b] == keyed@[b].1);
            assert(keyed@[a].1 != keyed@[b].1);
        }
    }
    Ok(result)
}


// ----------------------------------------------------------------------------------------------
// Breadth-first search
// ----------------------------------------------------------------------------------------------

/// What a ground action contributes to a run: its name and its arguments.
pub open spec fn step_view(g: GroundAction) -> (Seq<char>, Seq<Seq<char>>) {
    (g.name@, g.arguments.deep_view())
}

/// Runs of step sequences with the same names and arguments agree.
pub proof fn lemma_run_views(task: Task, st: Set<AtomV>, a: Seq<GroundAction>, b: Seq<GroundAction>)
    requires
        a.len() == b.len(),
        forall|i: int| 0 <= i < a.len() ==> step_view(#[trigger] a[i]) == step_view(b[i]),
    ensures
        run(task, st, a) == run(task, st, b),
    decreases a.len(),
{
    if a.len() > 0 {
        lemma_run_views(task, st, a.drop_last(), b.drop_last());
        assert(step_view(a[a.len() - 1]) == step_view(b[b.len() - 1]));
    }
}

/// A copy of a ground action.
fn copy_ground_action(g: &GroundAction) -> (r: GroundAction)
    ensures
        step_view(r) == step_view(*g),
{
    GroundAction { name: crate::text::copy_string(&g.name), arguments: crate::text::copy_strings(&g.arguments) }
}

/// Whether every successor of each of the first `head` stored states is stored, at most one
/// level deeper.
pub open spec fn expanded_closed(task: Task, sv: Seq<Set<AtomV>>, depth: Seq<int>, head: int) -> bool {
    forall|i: int, g: GroundAction|
        0 <= i < head && #[trigger] step_ok(task, sv[i], g) ==> exists|j: int|
            0 <= j < sv.len() && sv[j] == step_result(task, sv[i], g) && depth[j] <= depth[i] + 1
}

/// Whether the depths never decrease along the store.
pub open spec fn depth_sorted(depth: Seq<int>) -> bool {
    forall|i: int, j: int| 0 <= i <= j < depth.len() ==> #[trigger] depth[i] <= #[trigger] depth[j]
}

/// Every state a run reaches is stored among the expanded states, no deeper than the run is
/// long, provided the run is shorter than the depth of the next state to expand.
pub proof fn lemma_reach(task: Task, sv: Seq<Set<AtomV>>, depth: Seq<int>, head: int, steps: Seq<GroundAction>)
    requires
        expanded_closed(task, sv, depth, head),
        sv.len() == depth.len(),
        0 <= head <= sv.len(),
        0 < sv.len(),
        sv[0] == task.initial@,
        depth[0] == 0,
        depth_sorted(depth),
        replayed(task, steps) is Some,
        head < sv.len() ==> steps.len() < depth[head],
    ensures
        exists|j: int| 0 <= j < head && sv[j] == replayed(task, steps).unwrap() && depth[j] <= steps.len(),
    decreases steps.len(),
{
    if steps.len() == 0 {
        assert(sv[0] == replayed(task, steps).unwrap());
        if head < sv.len() {
            assert(depth[0] <= depth[head]);
        }
    } else {
        let prev = steps.drop_last();
        let g = steps.last();
        assert(replayed(task, prev) is Some);
        lemma_reach(task, sv, depth, head, prev);
        let s = replayed(task, prev).unwrap();
        let j0 = choose|j: int| 0 <= j < head && sv[j] == s && depth[j] <= prev.len();
        assert(step_ok(task, sv[j0], g));
        let j = choose|j: int| 0 <= j < sv.len() && sv[j] == step_result(task, sv[j0], g) && depth[j] <= depth[j0] + 1;
        if head < sv.len() && j >= head {
            assert(depth[head] <= depth[j]);
        }
        assert(sv[j] == replayed(task, steps).unwrap());
    }
}

/// The actions leading to stored state `i`, following the recorded parents.
pub open spec fn trace(parents: Seq<usize>, vias: Seq<usize>, pool: Seq<(usize, GroundAction)>, i: int) -> Seq<GroundAction>
    decreases i,
{
    if i <= 0 || i >= parents.len() || parents[i] as int >= i {
        Seq::empty()
    } else {
        trace(parents, vias, pool, parents[i] as int).push(pool[vias[i] as int].1)
    }
}

/// How each stored state was reached: from an earlier, expanded state by an applicable
/// pooled action, one level deeper.
pub open spec fn recorded(
    task: Task,
    sv: Seq<Set<AtomV>>,
    depth: Seq<int>,
    parents: Seq<usize>,
    vias: Seq<usize>,
    pool: Seq<(usize, GroundAction)>,
    head: int,
) -> bool {
    forall|i: int|
        0 < i < sv.len() ==> {
            &&& (#[trigger] parents[i] as int) < i
            &&& (vias[i] as int) < pool.len()
            &&& depth[i] == depth[parents[i] as int] + 1
            &&& step_ok(task, sv[parents[i] as int], pool[vias[i] as int].1)
            &&& sv[i] == step_result(task, sv[parents[i] as int], pool[vias[i] as int].1)
        }
}

/// The recorded trace of a stored state runs from the initial state to it.
pub proof fn lemma_trace(
    task: Task,
    sv: Seq<Set<AtomV>>,
    depth: Seq<int>,
    parents: Seq<usize>,
    vias: Seq<usize>,
    pool: Seq<(usize, GroundAction)>,
    head: int,
    i: int,
)
    requires
        recorded(task, sv, depth, parents, vias, pool, head),
        parents.len() == sv.len(),
        0 <= i < sv.len(),
        sv[0] == task.initial@,
        depth[0] == 0,
    ensures
        replayed(task, trace(parents, vias, pool, i)) == Some(sv[i]),
        trace(parents, vias, pool, i).len() == depth[i],
    decreases i,
{
    if i > 0 {
        let p = parents[i] as int;
        lemma_trace(task, sv, depth, parents, vias, pool, head, p);
        lemma_run_push(task, task.initial@, trace(parents, vias, pool, p), pool[vias[i] as int].1);
    }
}

/// The actions leading to stored state `i`, copied in order.
fn build_trace(parents: &Vec<usize>, vias: &Vec<usize>, pool: &CandidatePool, i: usize) -> (r: Vec<GroundAction>)
    requires
        i < parents@.len(),
        parents@.len() == vias@.len(),
        forall|j: int| 0 < j < parents@.len() ==> (#[trigger] parents@[j] as int) < j && (vias@[j] as int) < pool.actions@.len(),
    ensures
        r@.len() == trace(parents@, vias@, pool.actions@, i as int).len(),
        forall|j: int| 0 <= j < r@.len() ==> step_view(#[trigger] r@[j]) == step_view(trace(parents@, vias@, pool.actions@, i as int)[j]),
    decreases i,
{
    if i == 0 {
        return Vec::new();
    }
    let p = parents[i];
    let mut r = build_trace(parents, vias, pool, p);
    let ghost before = r@;
    let step = copy_ground_action(&pool.actions[vias[i]].1);
    r.push(step);
    proof {
        let t = trace(parents@, vias@, pool.actions@, i as int);
        assert(t == trace(parents@, vias@, pool.actions@, p as int).push(pool.actions@[vias@[i as int] as int].1));
        assert forall|j: int| 0 <= j < r@.len() implies step_view(#[trigger] r@[j]) == step_view(t[j]) by {
            if j < before.len() {
                assert(r@[j] == before[j]);
            }
        }
    }
    r
}


/// The abstract values of stored states.
pub open spec fn views(states: Seq<State>) -> Seq<Set<AtomV>> {
    states.map_values(|s: State| s@)
}

/// A pooled candidate applicable in a state is a step from it to its successor.
proof fn lemma_candidate_step(task: Task, st: Set<AtomV>, pool: Seq<(usize, GroundAction)>, c: int)
    requires
        task_valid(task),
        pool_ok(task, pool),
        0 <= c < pool.len(),
        candidate_applicable(task, st, pool[c]),
    ensures
        step_ok(task, st, pool[c].1),
        step_result(task, st, pool[c].1) == successor(st, task.actions@[pool[c].0 as int], pool[c].1.arguments.deep_view()),
{
    lemma_schema_of(task, pool[c].0 as int);
}

/// Each step from a state is matched by an offered candidate with the same result.
proof fn lemma_step_offered(task: Task, st: Set<AtomV>, pool: Seq<(usize, GroundAction)>, cands: Seq<usize>, g: GroundAction)
    requires
        task_valid(task),
        pool_ok(task, pool),
        cands_ok(pool, cands),
        step_ok(task, st, g),
        forall|k: int, args: Seq<Seq<char>>|
            0 <= k < task.actions@.len() && #[trigger] applicable(task, st, task.actions@[k], args) ==> offers(pool, cands, k, args),
    ensures
        exists|ci: int| 0 <= ci < cands.len() && step_result(task, st, pool[#[trigger] cands[ci] as int].1) == step_result(task, st, g),
{
    let k = schema_of(task, g.name@);
    let args = g.arguments.deep_view();
    assert(applicable(task, st, task.actions@[k], args));
    let ci = choose|ci: int|
        0 <= ci < cands.len() && (#[trigger] cands[ci] as int) < pool.len() && pool[cands[ci] as int].0 == k
            && pool[cands[ci] as int].1.arguments.deep_view() == args;
    lemma_schema_of(task, k);
    assert(step_result(task, st, pool[cands[ci] as int].1) == step_result(task, st, g));
}

/// Closure below `head` survives appending to the store.
proof fn lemma_closed_grow(task: Task, sv: Seq<Set<AtomV>>, depth: Seq<int>, sv2: Seq<Set<AtomV>>, depth2: Seq<int>, head: int)
    requires
        expanded_closed(task, sv, depth, head),
        0 <= head <= sv.len(),
        sv.len() <= sv2.len(),
        depth.len() == sv.len(),
        depth2.len() == sv2.len(),
        forall|j: int| 0 <= j < sv.len() ==> sv2[j] == sv[j] && depth2[j] == depth[j],
    ensures
        expanded_closed(task, sv2, depth2, head),
{
    assert forall|i: int, g: GroundAction| 0 <= i < head && #[trigger] step_ok(task, sv2[i], g) implies exists|j: int|
        0 <= j < sv2.len() && sv2[j] == step_result(task, sv2[i], g) && depth2[j] <= depth2[i] + 1 by {
        assert(sv2[i] == sv[i]);
        assert(step_ok(task, sv[i], g));
        let j = choose|j: int| 0 <= j < sv.len() && sv[j] == step_result(task, sv[i], g) && depth[j] <= depth[i] + 1;
        assert(sv2[j] == sv[j]);
    }
}

/// The record of how each state was reached survives the pool growing.
proof fn lemma_recorded_extend(
    task: Task,
    sv: Seq<Set<AtomV>>,
    depth: Seq<int>,
    parents: Seq<usize>,
    vias: Seq<usize>,
    p0: Seq<(usize, GroundAction)>,
    p1: Seq<(usize, GroundAction)>,
    head: int,
)
    requires
        recorded(task, sv, depth, parents, vias, p0, head),
        extends(p0, p1),
    ensures
        recorded(task, sv, depth, parents, vias, p1, head),
{
    assert forall|i: int| 0 < i < sv.len() implies {
        &&& (#[trigger] parents[i] as int) < i
        &&& (vias[i] as int) < p1.len()
        &&& depth[i] == depth[parents[i] as int] + 1
        &&& step_ok(task, sv[parents[i] as int], p1[vias[i] as int].1)
        &&& sv[i] == step_result(task, sv[parents[i] as int], p1[vias[i] as int].1)
    } by {
        assert((parents[i] as int) < i);
        assert((vias[i] as int) < p0.len());
        assert(p1[vias[i] as int] == p0[vias[i] as int]);
    }
}

/// Every state a plan passes through before its last step is among the expanded states.
proof fn lemma_plan_prefix(task: Task, sv: Seq<Set<AtomV>>, depth: Seq<int>, head: int, steps: Seq<GroundAction>, k: int)
    requires
        expanded_closed(task, sv, depth, head),
        sv.len() == depth.len(),
        0 <= head < sv.len(),
        sv[0] == task.initial@,
        depth[0] == 0,
        depth_sorted(depth),
        replayed(task, steps) is Some,
        steps.len() == depth[head],
        0 <= k < steps.len(),
    ensures
        exists|j: int| 0 <= j < head && sv[j] == replayed(task, steps.take(k))->0,
{
    let pre = steps.take(k);
    if replayed(task, pre) is None {
        assert(pre == steps.take(pre.len() as int));
        law_run_failure_persists(task, task.initial@, pre, steps);
    }
    lemma_reach(task, sv, depth, head, pre);
}

/// Whether some sequence of steps leads from the initial state to `s`.
pub open spec fn reachable(task: Task, s: Set<AtomV>) -> bool {
    exists|steps: Seq<GroundAction>| #[trigger] replayed(task, steps) == Some(s)
}

/// Every stored state is reachable.
proof fn lemma_stored_reachable(
    task: Task,
    sv: Seq<Set<AtomV>>,
    depth: Seq<int>,
    parents: Seq<usize>,
    vias: Seq<usize>,
    pool: Seq<(usize, GroundAction)>,
    head: int,
)
    requires
        recorded(task, sv, depth, parents, vias, pool, head),
        parents.len() == sv.len(),
        0 < sv.len(),
        sv[0] == task.initial@,
        depth[0] == 0,
    ensures
        forall|i: int| 0 <= i < sv.len() ==> reachable(task, #[trigger] sv[i]),
{
    assert forall|i: int| 0 <= i < sv.len() implies reachable(task, #[trigger] sv[i]) by {
        lemma_trace(task, sv, depth, parents, vias, pool, head, i);
        assert(replayed(task, trace(parents, vias, pool, i)) == Some(sv[i]));
    }
}

/// Whether some run of at most `n` steps from the initial state reaches `s`.
pub open spec fn within(task: Task, s: Set<AtomV>, n: int) -> bool {
    exists|steps: Seq<GroundAction>| steps.len() <= n && #[trigger] replayed(task, steps) == Some(s)
}

/// Whether every plan has at least `d` steps.
pub open spec fn no_plan_below(task: Task, d: int) -> bool {
    forall|steps: Seq<GroundAction>| #[trigger] is_plan(task, steps) ==> d <= steps.len()
}

/// Whether `ss` holds more than `limit` distinct states, each within `n` steps of the start.
pub open spec fn crowded(task: Task, ss: Seq<Set<AtomV>>, limit: int, n: int) -> bool {
    ss.len() > limit && ss.no_duplicates() && forall|i: int| 0 <= i < ss.len() ==> within(task, #[trigger] ss[i], n)
}

/// Finds a shortest plan by breadth-first search over distinct states.
///
/// A task that fails validation is never searched: the error is the one `validate` reports.
/// A state is tested against the goal when it is taken from the queue; `explored` counts
/// the states taken. A new successor is stored only while fewer than `max_states` states
/// are stored, and search stops with `LimitReached` when one more would be needed.
/// Ground actions are generated lazily for each expanded state, by joining the atoms each
/// precondition requires with the state's facts, and pooled; the search fails with a
/// grounding-limit error exactly when the pool would exceed `max_ground_actions`.
#[verifier::rlimit(60)]
pub fn solve(task: &Task, limits: SearchLimits) -> (r: Result<SearchOutcome, Error>)
    ensures
        !task_valid(*task) <==> (r matches Err(e) && e.spec_kind() == ErrorKind::InvalidInput),
        !task_valid(*task) ==> (r matches Err(e) && crate::logic::validation_error(*task) == Some(e.spec_message())),
        r matches Err(e) ==> e.spec_kind() == ErrorKind::InvalidInput || e.spec_kind() == ErrorKind::GroundingLimit,
        r matches Err(e) && e.spec_kind() == ErrorKind::GroundingLimit ==> grounding_exceeds(*task, limits.max_ground_actions as int),
        r matches Err(e) ==> (e.spec_kind() == ErrorKind::GroundingLimit ==> e.spec_message() == limit_message(
            limits.max_ground_actions as nat,
        )),
        r matches Err(e) && e.spec_kind() == ErrorKind::GroundingLimit ==> exists|ss: Seq<Set<AtomV>>|
            #![trigger within_budget(*task, ss, limits.max_ground_actions as int)]
            ss.len() > 0 && ss[0] == task.initial@ && (forall|i: int| 0 <= i < ss.len() ==> reachable(*task, #[trigger] ss[i]))
                && !within_budget(*task, ss, limits.max_ground_actions as int),
        task_valid(*task) && limits.max_states == 0 ==> (r matches Ok(SearchOutcome::LimitReached { explored }) && explored == 0),
        task_valid(*task) && limits.max_states > 0 && holds(task.objects@, task.initial@, task.goal, Seq::empty())
            ==> (r matches Ok(SearchOutcome::Solved(plan)) && plan.steps@.len() == 0 && plan.explored == 1
                && plan.final_state@ == task.initial@),
        r matches Ok(SearchOutcome::Solved(plan)) ==> {
            &&& task_valid(*task)
            &&& is_plan(*task, plan.steps@)
            &&& replayed(*task, plan.steps@) == Some(plan.final_state@)
            &&& forall|steps: Seq<GroundAction>| #[trigger] is_plan(*task, steps) ==> plan.steps@.len() <= steps.len()
            &&& 1 <= plan.explored <= limits.max_states
            &&& crate::logic::state_ok(*task, plan.final_state@)
            &&& exists|ss: Seq<Set<AtomV>>|
                #![trigger within_budget(*task, ss, limits.max_ground_actions as int)]
                ss.len() + 1 == plan.explored && (ss.len() > 0 ==> ss[0] == task.initial@)
                && (forall|i: int| 0 <= i < ss.len() ==> reachable(*task, #[trigger] ss[i]))
                && (forall|k: int| 0 <= k < plan.steps@.len() ==> ss.contains(
                    #[trigger] replayed(*task, plan.steps@.take(k))->0,
                ))
                && within_budget(*task, ss, limits.max_ground_actions as int)
        },
        r matches Ok(SearchOutcome::Unsolvable { explored }) ==> {
            &&& task_valid(*task)
            &&& forall|steps: Seq<GroundAction>| !#[trigger] is_plan(*task, steps)
            &&& 1 <= explored <= limits.max_states
            &&& exists|ss: Seq<Set<AtomV>>| ss.len() == explored && ss.no_duplicates()
                && (forall|s: Set<AtomV>| reachable(*task, s) <==> #[trigger] ss.contains(s))
                && within_budget(*task, ss, limits.max_ground_actions as int)
        },
        r matches Ok(SearchOutcome::LimitReached { explored }) ==> task_valid(*task) && explored <= limits.max_states,
        r matches Ok(SearchOutcome::LimitReached { explored }) && limits.max_states > 0 ==> exists|ss: Seq<Set<AtomV>>|
            ss.len() > limits.max_states && ss.no_duplicates() && forall|i: int| 0 <= i < ss.len() ==> reachable(*task, #[trigger] ss[i]),
        r matches Ok(SearchOutcome::LimitReached { explored }) ==> (explored > 0 ==> exists|d: int, ss: Seq<Set<AtomV>>|
            #![trigger crowded(*task, ss, limits.max_states as int, d + 1)]
            0 <= d && no_plan_below(*task, d) && crowded(*task, ss, limits.max_states as int, d + 1)),
        r matches Ok(SearchOutcome::LimitReached { explored }) ==> (explored > 0 ==> forall|steps: Seq<GroundAction>|
            #[trigger] is_plan(*task, steps) ==> exists|ss: Seq<Set<AtomV>>| #[trigger] crowded(*task, ss, limits.max_states as int, (steps.len() + 1) as int)),
        r matches Ok(SearchOutcome::LimitReached { explored }) ==> (explored > 0 ==> exists|ss: Seq<Set<AtomV>>|
            #![trigger within_budget(*task, ss, limits.max_ground_actions as int)]
            ss.len() == explored && ss[0] == task.initial@ && (forall|i: int| 0 <= i < ss.len() ==> reachable(*task, #[trigger] ss[i]))
                && within_budget(*task, ss, limits.max_ground_actions as int)),
{
    match validate(task) {
        Ok(()) => {},
        Err(e) => return Err(e),
    }
    if limits.max_states == 0 {
        return Ok(SearchOutcome::LimitReached { explored: 0 });
    }
    let mut pool = CandidatePool { actions: Vec::new() };
    let mut states: Vec<State> = Vec::new();
    states.push(task.initial.copy());
    let mut parents: Vec<usize> = Vec::new();
    parents.push(0);
    let mut vias: Vec<usize> = Vec::new();
    vias.push(0);
    let ghost mut depth: Seq<int> = seq![0int];
    let mut head: usize = 0;
    proof {
        assert(views(states@)[0] == task.initial@);
    }
    while head < states.len()
        invariant
            task_valid(*task),
            limits.max_states > 0,
            1 <= states@.len() <= limits.max_states,
            head <= states@.len(),
            parents@.len() == states@.len(),
            vias@.len() == states@.len(),
            depth.len() == states@.len(),
            views(states@)[0] == task.initial@,
            depth[0] == 0,
            depth_sorted(depth),
            views(states@).no_duplicates(),
            head < states@.len() ==> depth[states@.len() - 1] <= depth[head as int] + 1,
            expanded_closed(*task, views(states@), depth, head as int),
            forall|i: int| 0 <= i < head ==> !holds(task.objects@, #[trigger] views(states@)[i], task.goal, Seq::empty()),
            recorded(*task, views(states@), depth, parents@, vias@, pool.actions@, head as int),
            pool_ok(*task, pool.actions@),
            distinct_pool(pool.actions@),
            pool.actions@.len() <= limits.max_ground_actions,
            forall|i: int| 0 <= i < head ==> join_candidates(*task, #[trigger] views(states@)[i]).subset_of(pool_keys(pool.actions@)),
            pool_keys(pool.actions@).subset_of(candidates_union(*task, views(states@).take(head as int))),
        decreases limits.max_states - head,
    {
        let current = states[head].copy();
        let mut env0: Vec<(String, String)> = Vec::new();
        proof {
            assert(env_view(env0@) =~= Seq::<(Seq<char>, Seq<char>)>::empty());
        }
        if eval(task, &current, &task.goal, &mut env0, Ghost(Seq::empty())) {
            let steps = build_trace(&parents, &vias, &pool, head);
            proof {
                let sv = views(states@);
                let t = trace(parents@, vias@, pool.actions@, head as int);
                lemma_trace(*task, sv, depth, parents@, vias@, pool.actions@, head as int, head as int);
                lemma_run_views(*task, task.initial@, steps@, t);
                assert(is_plan(*task, steps@));
                assert forall|other: Seq<GroundAction>| #[trigger] is_plan(*task, other) implies steps@.len() <= other.len() by {
                    if other.len() < steps@.len() {
                        lemma_reach(*task, sv, depth, head as int, other);
                        let j = choose|j: int| 0 <= j < head && sv[j] == replayed(*task, other).unwrap() && depth[j] <= other.len();
                        assert(!holds(task.objects@, sv[j], task.goal, Seq::empty()));
                    }
                }
                if head > 0 {
                    assert(!holds(task.objects@, sv[0], task.goal, Seq::empty()));
                }
                law_runs_keep_states_well_typed(*task, task.initial@, steps@);
                let ss = sv.take(head as int);
                lemma_stored_reachable(*task, sv, depth, parents@, vias@, pool.actions@, head as int);
                assert forall|i: int| 0 <= i < ss.len() implies join_candidates(*task, #[trigger] ss[i]).subset_of(pool_keys(pool.actions@)) by {
                    assert(ss[i] == sv[i]);
                }
                lemma_within_budget(*task, ss, pool.actions@, limits.max_ground_actions as int);
                assert forall|i: int| 0 <= i < ss.len() implies reachable(*task, #[trigger] ss[i]) by {
                    assert(ss[i] == sv[i]);
                }
                if ss.len() > 0 {
                    assert(ss[0] == sv[0]);
                }
                assert forall|k: int| 0 <= k < steps@.len() implies ss.contains(
                    #[trigger] replayed(*task, steps@.take(k))->0,
                ) by {
                    lemma_plan_prefix(*task, sv, depth, head as int, steps@, k);
                    let j = choose|j: int| 0 <= j < head && sv[j] == replayed(*task, steps@.take(k))->0;
                    assert(ss[j] == sv[j]);
                }
            }
            let plan = Plan { steps, final_state: current, explored: head + 1 };
            return Ok(SearchOutcome::Solved(plan));
        }
        let ghost pool_before = pool.actions@;
        let ghost sv_now = views(states@);
        let ghost st_len = states@.len();
        let cands = match applicable_actions(task, &current, limits.max_ground_actions, &mut pool) {
            Ok(c) => c,
            Err(e) => {
                proof {
                    let ss = sv_now.take(head + 1);
                    lemma_union_grow(*task, sv_now, head as int, pool_before, pool.actions@);
                    let c = choose|c: (int, Seq<Seq<char>>)|
                        #[trigger] join_candidates(*task, current@).contains(c) && !pool_keys(pool.actions@).contains(c);
                    assert(ss[head as int] == current@);
                    assert(candidates_union(*task, ss).contains(c));
                    lemma_over_budget(*task, ss, pool.actions@, c, limits.max_ground_actions as int);
                    lemma_stored_reachable(*task, sv_now, depth, parents@, vias@, pool_before, head as int);
                    assert forall|i: int| 0 <= i < ss.len() implies reachable(*task, #[trigger] ss[i]) by {
                        assert(ss[i] == sv_now[i]);
                    }
                    assert(ss[0] == sv_now[0]);
                }
                return Err(e);
            },
        };
        proof {
            assert(recorded(*task, views(states@), depth, parents@, vias@, pool_before, head as int));
            lemma_recorded_extend(*task, views(states@), depth, parents@, vias@, pool_before, pool.actions@, head as int);
            assert(join_candidates(*task, views(states@)[head as int]).subset_of(pool_keys(pool.actions@)));
            lemma_union_grow(*task, views(states@), head as int, pool_before, pool.actions@);
            assert forall|i: int| 0 <= i < head + 1 implies join_candidates(*task, #[trigger] views(states@)[i]).subset_of(
                pool_keys(pool.actions@),
            ) by {
                if i < head {
                    assert(join_candidates(*task, views(states@)[i]).subset_of(pool_keys(pool_before)));
                    lemma_pool_keys_extend(pool_before, pool.actions@);
                }
            }
        }
        let mut ci: usize = 0;
        while ci < cands.len()
            invariant
                task_valid(*task),
                limits.max_states > 0,
                1 <= states@.len() <= limits.max_states,
                head < states@.len(),
                parents@.len() == states@.len(),
                vias@.len() == states@.len(),
                depth.len() == states@.len(),
                views(states@)[0] == task.initial@,
                depth[0] == 0,
                depth_sorted(depth),
                views(states@).no_duplicates(),
                depth[states@.len() - 1] <= depth[head as int] + 1,
                expanded_closed(*task, views(states@), depth, head as int),
                forall|i: int| 0 <= i < head ==> !holds(task.objects@, #[trigger] views(states@)[i], task.goal, Seq::empty()),
                !holds(task.objects@, views(states@)[head as int], task.goal, Seq::empty()),
                recorded(*task, views(states@), depth, parents@, vias@, pool.actions@, head as int),
                pool_ok(*task, pool.actions@),
                distinct_pool(pool.actions@),
                pool.actions@.len() <= limits.max_ground_actions,
                current@ == views(states@)[head as int],
                cands_ok(pool.actions@, cands@),
                forall|i: int| 0 <= i < cands@.len() ==> candidate_applicable(*task, current@, pool.actions@[#[trigger] cands@[i] as int]),
                forall|k: int, args: Seq<Seq<char>>|
                    0 <= k < task.actions@.len() && #[trigger] applicable(*task, current@, task.actions@[k], args)
                        ==> offers(pool.actions@, cands@, k, args),
                ci <= cands@.len(),
                pool_keys(pool.actions@).subset_of(candidates_union(*task, views(states@).take(head + 1))),
                forall|i: int| 0 <= i < head + 1 ==> join_candidates(*task, #[trigger] views(states@)[i]).subset_of(pool_keys(pool.actions@)),
                forall|ci2: int| 0 <= ci2 < ci ==> exists|j: int|
                    0 <= j < states@.len() && views(states@)[j] == step_result(*task, current@, pool.actions@[#[trigger] cands@[ci2] as int].1)
                        && depth[j] <= depth[head as int] + 1,
            decreases cands.len() - ci,
        {
            let c = cands[ci];
            let sk = pool.actions[c].0;
            let arguments = &pool.actions[c].1.arguments;
            proof {
                assert(action_ok(*task, task.actions@[sk as int]));
                lemma_candidate_step(*task, current@, pool.actions@, c as int);
            }
            proof {
                lemma_effects_bound(*task, task.actions@[sk as int], arguments.deep_view());
            }
            let next = match apply(task, &task.actions[sk], arguments, &current) {
                Ok(n) => n,
                Err(e) => {
                    proof {
                        assert(false);
                    }
                    return Err(e);
                },
            };
            let mut j: usize = 0;
            let mut found = false;
            while j < states.len()
                invariant_except_break
                    !found,
                invariant
                    j <= states@.len(),
                    forall|j2: int| 0 <= j2 < j ==> (#[trigger] views(states@)[j2]) != next@,
                ensures
                    found ==> j < states@.len() && views(states@)[j as int] == next@,
                    !found ==> forall|j2: int| 0 <= j2 < states@.len() ==> (#[trigger] views(states@)[j2]) != next@,
                decreases states.len() - j,
            {
                if states[j].same(&next) {
                    found = true;
                    break;
                }
                j = j + 1;
            }
            if found {
                proof {
                    let sv = views(states@);
                    assert(sv[j as int] == step_result(*task, current@, pool.actions@[cands@[ci as int] as int].1));
                    assert(depth[j as int] <= depth[states@.len() - 1]);
                }
            } else {
                if states.len() >= limits.max_states {
                    proof {
                        let sv = views(states@);
                        let g = pool.actions@[cands@[ci as int] as int].1;
                        let ss = sv.push(next@);
                        lemma_stored_reachable(*task, sv, depth, parents@, vias@, pool.actions@, head as int);
                        lemma_trace(*task, sv, depth, parents@, vias@, pool.actions@, head as int, head as int);
                        let t = trace(parents@, vias@, pool.actions@, head as int);
                        lemma_run_push(*task, task.initial@, t, g);
                        assert(replayed(*task, t.push(g)) == Some(next@));
                        assert forall|i: int| 0 <= i < ss.len() implies reachable(*task, #[trigger] ss[i]) by {
                            if i < sv.len() {
                                assert(ss[i] == sv[i]);
                            } else {
                                assert(ss[i] == next@);
                            }
                        }
                        assert(ss.no_duplicates()) by {
                            assert forall|a: int, b: int| 0 <= a < ss.len() && 0 <= b < ss.len() && a != b implies ss[a] != ss[b] by {
                                if a < sv.len() && b < sv.len() {
                                    assert(ss[a] == sv[a] && ss[b] == sv[b]);
                                } else if a < sv.len() {
                                    assert(ss[a] == sv[a]);
                                } else if b < sv.len() {
                                    assert(ss[b] == sv[b]);
                                }
                            }
                        }
                        let d = depth[head as int];
                        assert(no_plan_below(*task, d)) by {
                            assert forall|other: Seq<GroundAction>| #[trigger] is_plan(*task, other) implies d <= other.len() by {
                                if other.len() < d {
                                    lemma_reach(*task, sv, depth, head as int, other);
                                    let j = choose|j: int| 0 <= j < head && sv[j] == replayed(*task, other).unwrap() && depth[j] <= other.len();
                                    assert(!holds(task.objects@, sv[j], task.goal, Seq::empty()));
                                }
                            }
                        }
                        assert forall|i: int| 0 <= i < ss.len() implies within(*task, #[trigger] ss[i], d + 1) by {
                            if i < sv.len() {
                                assert(ss[i] == sv[i]);
                                lemma_trace(*task, sv, depth, parents@, vias@, pool.actions@, head as int, i);
                                assert(depth[i] <= depth[sv.len() - 1]);
                                assert(replayed(*task, trace(parents@, vias@, pool.actions@, i)) == Some(ss[i]));
                            } else {
                                assert(ss[i] == next@);
                                assert(replayed(*task, t.push(g)) == Some(ss[i]));
                            }
                        }
                        assert(crowded(*task, ss, limits.max_states as int, d + 1));
                        assert forall|plan_steps: Seq<GroundAction>| #[trigger] is_plan(*task, plan_steps) implies exists|ss2: Seq<Set<AtomV>>|
                            #[trigger] crowded(*task, ss2, limits.max_states as int, (plan_steps.len() + 1) as int) by {
                            assert forall|i: int| 0 <= i < ss.len() implies within(*task, #[trigger] ss[i], (plan_steps.len() + 1) as int) by {
                                assert(within(*task, ss[i], d + 1));
                            }
                            assert(crowded(*task, ss, limits.max_states as int, (plan_steps.len() + 1) as int));
                        }
                        let es = sv.take(head + 1);
                        assert forall|i: int| 0 <= i < es.len() implies join_candidates(*task, #[trigger] es[i]).subset_of(pool_keys(pool.actions@)) by {
                            assert(es[i] == sv[i]);
                        }
                        lemma_within_budget(*task, es, pool.actions@, limits.max_ground_actions as int);
                        assert forall|i: int| 0 <= i < es.len() implies reachable(*task, #[trigger] es[i]) by {
                            assert(es[i] == sv[i]);
                        }
                        assert(es[0] == sv[0]);
                    }
                    return Ok(SearchOutcome::LimitReached { explored: head + 1 });
                }
                let ghost sv0 = views(states@);
                let ghost depth0 = depth;
                let ghost next_view = next@;
                states.push(next);
                parents.push(head);
                vias.push(c);
                proof {
                    depth = depth.push(depth0[head as int] + 1);
                    let sv = views(states@);
                    assert(sv =~= sv0.push(next_view));
                    assert(sv.no_duplicates()) by {
                        assert forall|a: int, b: int| 0 <= a < sv.len() && 0 <= b < sv.len() && a != b implies sv[a] != sv[b] by {
                            if a < sv0.len() && b < sv0.len() {
                                assert(sv[a] == sv0[a] && sv[b] == sv0[b]);
                            } else if a < sv0.len() {
                                assert(sv[a] == sv0[a]);
                            } else if b < sv0.len() {
                                assert(sv[b] == sv0[b]);
                            }
                        }
                    }
                    lemma_closed_grow(*task, sv0, depth0, sv, depth, head as int);
                    assert(sv.take(head + 1) =~= sv0.take(head + 1));
                    assert forall|i: int| 0 <= i < head + 1 implies join_candidates(*task, #[trigger] views(states@)[i]).subset_of(
                        pool_keys(pool.actions@),
                    ) by {
                        assert(sv[i] == sv0[i]);
                    }
                    assert(depth_sorted(depth)) by {
                        assert forall|a: int, b: int| 0 <= a <= b < depth.len() implies #[trigger] depth[a] <= #[trigger] depth[b] by {
                            if b == depth.len() - 1 && a < b {
                                assert(depth0[a] <= depth0[depth0.len() - 1]);
                            }
                        }
                    }
                    assert(recorded(*task, sv, depth, parents@, vias@, pool.actions@, head as int)) by {
                        assert forall|i: int| 0 < i < sv.len() implies {
                            &&& (#[trigger] parents@[i] as int) < i
                            &&& (vias@[i] as int) < pool.actions@.len()
                            &&& depth[i] == depth[parents@[i] as int] + 1
                            &&& step_ok(*task, sv[parents@[i] as int], pool.actions@[vias@[i] as int].1)
                            &&& sv[i] == step_result(*task, sv[parents@[i] as int], pool.actions@[vias@[i] as int].1)
                        } by {
                            if i < sv0.len() {
                                assert(sv[i] == sv0[i]);
                                assert(sv[parents@[i] as int] == sv0[parents@[i] as int]);
                            }
                        }
                    }
                    assert forall|ci2: int| 0 <= ci2 < ci + 1 implies exists|j2: int|
                        0 <= j2 < states@.len() && sv[j2] == step_result(*task, current@, pool.actions@[#[trigger] cands@[ci2] as int].1)
                            && depth[j2] <= depth[head as int] + 1 by {
                        if ci2 < ci {
                            let j3 = choose|j3: int|
                                0 <= j3 < sv0.len() && sv0[j3] == step_result(*task, current@, pool.actions@[cands@[ci2] as int].1)
                                    && depth0[j3] <= depth0[head as int] + 1;
                            assert(sv[j3] == sv0[j3]);
                        } else {
                            assert(sv[sv.len() - 1] == next_view);
                        }
                    }
                }
            }
            ci = ci + 1;
        }
        proof {
            let sv = views(states@);
            assert(expanded_closed(*task, sv, depth, head + 1)) by {
                assert forall|i: int, g: GroundAction| 0 <= i < head + 1 && #[trigger] step_ok(*task, sv[i], g) implies exists|j: int|
                    0 <= j < sv.len() && sv[j] == step_result(*task, sv[i], g) && depth[j] <= depth[i] + 1 by {
                    if i == head {
                        lemma_step_offered(*task, current@, pool.actions@, cands@, g);
                        let ci2 = choose|ci2: int| 0 <= ci2 < cands@.len()
                            && step_result(*task, current@, pool.actions@[#[trigger] cands@[ci2] as int].1) == step_result(*task, current@, g);
                        assert(exists|j: int|
                            0 <= j < states@.len() && views(states@)[j] == step_result(*task, current@, pool.actions@[cands@[ci2] as int].1)
                                && depth[j] <= depth[head as int] + 1);
                    }
                }
            }
            if head + 1 < sv.len() {
                assert(depth[head as int] <= depth[head + 1]);
            }
        }
        head = head + 1;
    }
    proof {
        let sv = views(states@);
        assert forall|steps: Seq<GroundAction>| !#[trigger] is_plan(*task, steps) by {
            if is_plan(*task, steps) {
                lemma_reach(*task, sv, depth, head as int, steps);
                let j = choose|j: int| 0 <= j < head && sv[j] == replayed(*task, steps).unwrap() && depth[j] <= steps.len();
                assert(!holds(task.objects@, sv[j], task.goal, Seq::empty()));
            }
        }
        assert(!holds(task.objects@, sv[0], task.goal, Seq::empty()));
        lemma_stored_reachable(*task, sv, depth, parents@, vias@, pool.actions@, head as int);
        assert forall|s: Set<AtomV>| reachable(*task, s) <==> #[trigger] sv.contains(s) by {
            if reachable(*task, s) {
                let steps = choose|steps: Seq<GroundAction>| #[trigger] replayed(*task, steps) == Some(s);
                lemma_reach(*task, sv, depth, head as int, steps);
                let j = choose|j: int| 0 <= j < head && sv[j] == replayed(*task, steps).unwrap() && depth[j] <= steps.len();
                assert(sv[j] == s);
            }
            if sv.contains(s) {
                let j = choose|j: int| 0 <= j < sv.len() && sv[j] == s;
                assert(reachable(*task, sv[j]));
            }
        }
    }
    proof {
        lemma_within_budget(*task, views(states@), pool.actions@, limits.max_ground_actions as int);
    }
    Ok(SearchOutcome::Unsolvable { explored: head })
}

} // verus!
