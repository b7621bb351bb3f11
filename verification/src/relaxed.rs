//! The delete relaxation of a task and the `h_max` estimate it gives.
use vstd::prelude::*;

use crate::grammar::{
    atom_v, facts_after, facts_all, facts_of, formula_v, formulas_v, ground_terms, lemma_formulas_v, object_names, term_v,
    terms_v, FormulaV, TermV,
};
use crate::logic::{
    action_ok, binding_scope, env_view, ground, holds, holds_all, object_ok, of_type, same_names, task_valid, term_value, lookup, Env,
};
use crate::planner::{
    action_env, action_environment, added, args_ok, conj_atom, conj_atom_any, lemma_conj_atom_any_member, lemma_conj_atom_ok,
    run, schema_of, step_ok, step_result,
};
use crate::model::{Action, Atom, AtomV, Binding, Formula, GroundAction, GroundAtom, State, Task, Term};

verus! {

// ----------------------------------------------------------------------------------------------
// Relaxed reachability
// ----------------------------------------------------------------------------------------------

/// A relaxed action: the atoms it needs and the atoms it adds; deletions are ignored.
pub struct RelaxedAction {
    pub preconditions: State,
    pub add: State,
}

pub open spec fn relaxed_view(a: RelaxedAction) -> (Set<AtomV>, Set<AtomV>) {
    (a.preconditions@, a.add@)
}

pub open spec fn model_view(m: Seq<RelaxedAction>) -> Seq<(Set<AtomV>, Set<AtomV>)> {
    m.map_values(|a: RelaxedAction| relaxed_view(a))
}

/// One relaxed step: `s` together with the additions of every action enabled in `s`.
pub open spec fn relaxed_step(m: Seq<(Set<AtomV>, Set<AtomV>)>, s: Set<AtomV>) -> Set<AtomV> {
    Set::new(|x: AtomV| s.contains(x) || exists|i: int| 0 <= i < m.len() && m[i].0.subset_of(s) && #[trigger] m[i].1.contains(x))
}

/// The atoms reachable from `s` within `k` relaxed steps.
pub open spec fn layer(m: Seq<(Set<AtomV>, Set<AtomV>)>, s: Set<AtomV>, k: nat) -> Set<AtomV>
    decreases k,
{
    if k == 0 {
        s
    } else {
        relaxed_step(m, layer(m, s, (k - 1) as nat))
    }
}

/// Whether every goal is reachable from `s` within `k` relaxed steps.
pub open spec fn reaches(m: Seq<(Set<AtomV>, Set<AtomV>)>, goals: Set<AtomV>, s: Set<AtomV>, k: nat) -> bool {
    goals.subset_of(layer(m, s, k))
}

/// The `h_max` value of `s`: the fewest relaxed steps that reach every goal (with unit costs,
/// the largest of the goals' individual costs), or none if some goal is relaxed-unreachable.
pub open spec fn hmax(m: Seq<(Set<AtomV>, Set<AtomV>)>, goals: Set<AtomV>, s: Set<AtomV>) -> Option<nat> {
    if exists|k: nat| reaches(m, goals, s, k) {
        Some(choose|k: nat| reaches(m, goals, s, k) && forall|j: nat| j < k ==> !reaches(m, goals, s, j))
    } else {
        None
    }
}

/// A count saturated at the largest `u32`.
pub open spec fn saturate(n: nat) -> u32 {
    if n > u32::MAX { u32::MAX } else { n as u32 }
}

pub open spec fn saturate_opt(h: Option<nat>) -> Option<u32> {
    match h {
        Some(n) => Some(saturate(n)),
        None => None,
    }
}

/// Layers only grow.
pub proof fn lemma_layer_grows(m: Seq<(Set<AtomV>, Set<AtomV>)>, s: Set<AtomV>, j: nat, k: nat)
    requires
        j <= k,
    ensures
        layer(m, s, j).subset_of(layer(m, s, k)),
    decreases k,
{
    if j < k {
        lemma_layer_grows(m, s, j, (k - 1) as nat);
    }
}

/// Once a layer repeats, every later layer is the same.
pub proof fn lemma_layer_stable(m: Seq<(Set<AtomV>, Set<AtomV>)>, s: Set<AtomV>, k: nat, j: nat)
    requires
        layer(m, s, k + 1) == layer(m, s, k),
        k <= j,
    ensures
        layer(m, s, j) == layer(m, s, k),
    decreases j,
{
    if j > k {
        lemma_layer_stable(m, s, k, (j - 1) as nat);
        assert(layer(m, s, j) == relaxed_step(m, layer(m, s, (j - 1) as nat)));
    }
}

/// When `k` reaches the goals and no smaller count does, `h_max` is `k`.
pub proof fn lemma_hmax_is(m: Seq<(Set<AtomV>, Set<AtomV>)>, goals: Set<AtomV>, s: Set<AtomV>, k: nat)
    requires
        reaches(m, goals, s, k),
        forall|j: nat| j < k ==> !reaches(m, goals, s, j),
    ensures
        hmax(m, goals, s) == Some(k),
{
    let h = choose|h: nat| reaches(m, goals, s, h) && forall|j: nat| j < h ==> !reaches(m, goals, s, j);
    assert(reaches(m, goals, s, h));
    if h < k {
    } else if k < h {
    }
}

/// Some count reaching the goals has a least one below it.
pub proof fn lemma_least_reaching(m: Seq<(Set<AtomV>, Set<AtomV>)>, goals: Set<AtomV>, s: Set<AtomV>, k: nat)
    requires
        reaches(m, goals, s, k),
    ensures
        exists|h: nat| h <= k && reaches(m, goals, s, h) && forall|j: nat| j < h ==> !reaches(m, goals, s, j),
    decreases k,
{
    if exists|j: nat| j < k && reaches(m, goals, s, j) {
        let j = choose|j: nat| j < k && reaches(m, goals, s, j);
        lemma_least_reaching(m, goals, s, j);
    } else {
        assert(forall|j: nat| j < k ==> !reaches(m, goals, s, j));
    }
}

/// The atoms some relaxed action adds.
pub open spec fn all_adds(m: Seq<(Set<AtomV>, Set<AtomV>)>) -> Set<AtomV> {
    Set::new(|x: AtomV| exists|i: int| 0 <= i < m.len() && #[trigger] m[i].1.contains(x))
}

/// The additions of the first `n` relaxed actions.
spec fn adds_upto(m: Seq<(Set<AtomV>, Set<AtomV>)>, n: int) -> Set<AtomV> {
    Set::new(|x: AtomV| exists|i: int| 0 <= i < n && i < m.len() && #[trigger] m[i].1.contains(x))
}

proof fn lemma_adds_upto_finite(m: Seq<(Set<AtomV>, Set<AtomV>)>, n: int)
    requires
        0 <= n <= m.len(),
        forall|i: int| 0 <= i < m.len() ==> (#[trigger] m[i]).1.finite(),
    ensures
        adds_upto(m, n).finite(),
    decreases n,
{
    if n == 0 {
        assert(adds_upto(m, n) =~= Set::<AtomV>::empty());
    } else {
        lemma_adds_upto_finite(m, n - 1);
        assert(adds_upto(m, n) =~= adds_upto(m, n - 1).union(m[n - 1].1));
        vstd::set_lib::lemma_set_union_finite_iff(adds_upto(m, n - 1), m[n - 1].1);
    }
}

/// Every layer lies within `s` and the atoms some action adds, a finite set.
pub proof fn lemma_layer_bounded(m: Seq<(Set<AtomV>, Set<AtomV>)>, s: Set<AtomV>, k: nat)
    requires
        s.finite(),
        forall|i: int| 0 <= i < m.len() ==> (#[trigger] m[i]).1.finite(),
    ensures
        layer(m, s, k).subset_of(s.union(all_adds(m))),
        s.union(all_adds(m)).finite(),
    decreases k,
{
    lemma_adds_upto_finite(m, m.len() as int);
    assert(adds_upto(m, m.len() as int) =~= all_adds(m));
    vstd::set_lib::lemma_set_union_finite_iff(s, all_adds(m));
    if k > 0 {
        lemma_layer_bounded(m, s, (k - 1) as nat);
    }
}

// ----------------------------------------------------------------------------------------------
// Computing h_max
// ----------------------------------------------------------------------------------------------

/// Whether every atom of `a` is in `b`.
pub fn holds_all_atoms(a: &State, b: &State) -> (r: bool)
    ensures
        r == a@.subset_of(b@),
{
    let atoms = a.atoms();
    proof {
        a.lemma_elements();
    }
    let mut i: usize = 0;
    while i < atoms.len()
        invariant
            i <= atoms@.len(),
            atoms@.map_values(|g: GroundAtom| g@) == a.elements(),
            forall|x: AtomV| a@.contains(x) <==> a.elements().contains(x),
            forall|j: int| 0 <= j < i ==> b@.contains(#[trigger] atoms@[j]@),
        decreases atoms.len() - i,
    {
        if !b.contains(&atoms[i]) {
            proof {
                assert(a.elements()[i as int] == atoms@[i as int]@);
                assert(a@.contains(atoms@[i as int]@));
            }
            return false;
        }
        i = i + 1;
    }
    proof {
        assert forall|x: AtomV| a@.contains(x) implies b@.contains(x) by {
            let j = choose|j: int| 0 <= j < a.elements().len() && a.elements()[j] == x;
            assert(atoms@[j]@ == x);
        }
    }
    true
}

/// One relaxed step from `current`.
fn relaxed_successor(model: &Vec<RelaxedAction>, current: &State) -> (next: State)
    ensures
        next@ == relaxed_step(model_view(model@), current@),
{
    let ghost m = model_view(model@);
    let mut next = current.copy();
    let mut i: usize = 0;
    while i < model.len()
        invariant
            i <= model@.len(),
            m == model_view(model@),
            next@ == Set::new(|x: AtomV| current@.contains(x) || exists|j: int|
                0 <= j < i && m[j].0.subset_of(current@) && #[trigger] m[j].1.contains(x)),
        decreases model.len() - i,
    {
        let ghost before = next@;
        if holds_all_atoms(&model[i].preconditions, current) {
            let adds = model[i].add.atoms();
            proof {
                model[i as int].add.lemma_elements();
            }
            let mut q: usize = 0;
            while q < adds.len()
                invariant
                    q <= adds@.len(),
                    i < model@.len(),
                    m == model_view(model@),
                    adds@.map_values(|g: GroundAtom| g@) == model@[i as int].add.elements(),
                    forall|x: AtomV| model@[i as int].add@.contains(x) <==> model@[i as int].add.elements().contains(x),
                    next@ == before.union(Set::new(|x: AtomV| exists|p: int| 0 <= p < q && (#[trigger] adds@[p])@ == x)),
                decreases adds.len() - q,
            {
                let ghost mid = next@;
                next.insert(crate::model::copy_ground_atom(&adds[q]));
                proof {
                    assert(next@ =~= before.union(Set::new(|x: AtomV| exists|p: int| 0 <= p < q + 1 && (#[trigger] adds@[p])@ == x))) by {
                        assert forall|x: AtomV| next@.contains(x) <==> before.union(Set::new(|x: AtomV| exists|p: int|
                            0 <= p < q + 1 && (#[trigger] adds@[p])@ == x)).contains(x) by {
                            if x == adds@[q as int]@ {
                                assert(exists|p: int| 0 <= p < q + 1 && (#[trigger] adds@[p])@ == x);
                            }
                            if exists|p: int| 0 <= p < q + 1 && (#[trigger] adds@[p])@ == x {
                                let p = choose|p: int| 0 <= p < q + 1 && (#[trigger] adds@[p])@ == x;
                                if p < q {
                                    assert(exists|p2: int| 0 <= p2 < q && (#[trigger] adds@[p2])@ == x);
                                }
                            }
                        }
                    }
                }
                q = q + 1;
            }
            proof {
                assert forall|x: AtomV| next@.contains(x) <==> (current@.contains(x) || exists|j: int|
                    0 <= j < i + 1 && m[j].0.subset_of(current@) && #[trigger] m[j].1.contains(x)) by {
                    let added = Set::new(|x: AtomV| exists|p: int| 0 <= p < adds@.len() && (#[trigger] adds@[p])@ == x);
                    assert(m[i as int] == relaxed_view(model@[i as int]));
                    if added.contains(x) {
                        let p = choose|p: int| 0 <= p < adds@.len() && (#[trigger] adds@[p])@ == x;
                        assert(model@[i as int].add.elements()[p] == x);
                        assert(m[i as int].1.contains(x));
                    }
                    if m[i as int].1.contains(x) {
                        let p = choose|p: int| 0 <= p < model@[i as int].add.elements().len() && model@[i as int].add.elements()[p] == x;
                        assert(adds@[p]@ == x);
                        assert(added.contains(x));
                    }
                }
                assert(next@ =~= Set::new(|x: AtomV| current@.contains(x) || exists|j: int|
                    0 <= j < i + 1 && m[j].0.subset_of(current@) && #[trigger] m[j].1.contains(x)));
            }
        } else {
            proof {
                assert(m[i as int] == relaxed_view(model@[i as int]));
                assert(!m[i as int].0.subset_of(current@));
                assert(next@ =~= Set::new(|x: AtomV| current@.contains(x) || exists|j: int|
                    0 <= j < i + 1 && m[j].0.subset_of(current@) && #[trigger] m[j].1.contains(x)));
            }
        }
        i = i + 1;
    }
    proof {
        assert(next@ =~= relaxed_step(m, current@));
    }
    next
}

/// The `h_max` estimate of `state` in the relaxed `model`: the fewest relaxed steps after
/// which every goal is true, saturated at the largest `u32`, or none when some goal stays
/// unreachable.
pub fn relaxed_hmax(model: &Vec<RelaxedAction>, goals: &State, state: &State) -> (r: Option<u32>)
    ensures
        r == saturate_opt(hmax(model_view(model@), goals@, state@)),
{
    let ghost m = model_view(model@);
    let ghost s = state@;
    let ghost bound = s.union(all_adds(m));
    let start = state.len();
    proof {
        assert forall|i: int| 0 <= i < m.len() implies (#[trigger] m[i]).1.finite() by {
            assert(m[i] == relaxed_view(model@[i]));
            model@[i].add.lemma_finite();
        }
        lemma_layer_bounded(m, s, 0);
    }
    let mut current = state.copy();
    let mut k: usize = 0;
    loop
        invariant
            m == model_view(model@),
            s == state@,
            bound == s.union(all_adds(m)),
            bound.finite(),
            forall|i: int| 0 <= i < m.len() ==> (#[trigger] m[i]).1.finite(),
            s.finite(),
            start == s.len(),
            current@ == layer(m, s, k as nat),
            current@.finite(),
            start + k <= current@.len(),
            forall|j: nat| j < k ==> !reaches(m, goals@, s, j),
        decreases bound.len() - current@.len(),
    {
        if holds_all_atoms(goals, &current) {
            proof {
                lemma_hmax_is(m, goals@, s, k as nat);
            }
            if k > 0xffff_ffff {
                return Some(0xffff_ffff);
            }
            return Some(k as u32);
        }
        let next = relaxed_successor(model, &current);
        let size = current.len();
        let next_size = next.len();
        proof {
            lemma_layer_bounded(m, s, (k + 1) as nat);
            assert(current@.subset_of(next@));
            vstd::set_lib::lemma_len_subset(current@, next@);
        }
        if next_size == size {
            proof {
                if !(next@ =~= current@) {
                    let x = choose|x: AtomV| next@.contains(x) && !current@.contains(x);
                    current@.lemma_subset_not_in_lt(next@, x);
                }
                assert(layer(m, s, (k + 1) as nat) == layer(m, s, k as nat));
                assert forall|j: nat| !reaches(m, goals@, s, j) by {
                    if j >= k {
                        lemma_layer_stable(m, s, k as nat, j);
                    }
                }
                if exists|j: nat| reaches(m, goals@, s, j) {
                    let j = choose|j: nat| reaches(m, goals@, s, j);
                    assert(!reaches(m, goals@, s, j));
                }
            }
            return None;
        }
        proof {
            vstd::set_lib::lemma_len_subset(next@, bound);
        }
        current = next;
        k = k + 1;
    }
}

// ----------------------------------------------------------------------------------------------
// Goals
// ----------------------------------------------------------------------------------------------

/// Adds the atoms of a conjunction of ground atoms to `state`; fails on anything else.
fn collect_goal(f: &Formula, state: &mut State) -> (r: bool)
    ensures
        r <==> facts_of(formula_v(*f)) is Some,
        r ==> final(state)@ == old(state)@ + facts_of(formula_v(*f))->0,
    decreases f, 1int,
{
    match f {
        Formula::And(parts) => {
            proof {
                assert(formula_v(*f) == FormulaV::And(formulas_v(parts@)));
            }
            collect_goal_all(parts, state)
        },
        Formula::Atom(atom) => {
            let ghost tv = terms_v(atom.terms@);
            let mut arguments: Vec<String> = Vec::new();
            let mut i: usize = 0;
            while i < atom.terms.len()
                invariant
                    i <= atom.terms@.len(),
                    tv == terms_v(atom.terms@),
                    *f == Formula::Atom(*atom),
                    arguments@.len() == i,
                    forall|j: int| 0 <= j < i ==> #[trigger] tv[j] == TermV::Obj(arguments@[j]@),
                decreases atom.terms.len() - i,
            {
                match &atom.terms[i] {
                    Term::Constant(name) => {
                        let ghost before = arguments@;
                        arguments.push(name.clone());
                        proof {
                            assert forall|j: int| 0 <= j < i + 1 implies #[trigger] tv[j] == TermV::Obj(arguments@[j]@) by {
                                if j < i {
                                    assert(arguments@[j] == before[j]);
                                }
                            }
                        }
                    },
                    Term::Variable(_) => {
                        proof {
                            assert(!(tv[i as int] is Obj));
                            assert(!ground_terms(tv));
                            assert(formula_v(*f) == FormulaV::Atom(atom.predicate@, tv));
                        }
                        return false;
                    },
                }
                i = i + 1;
            }
            let fact = GroundAtom { predicate: atom.predicate.clone(), arguments };
            let ghost old_state = state@;
            proof {
                assert(ground_terms(tv));
                assert(object_names(tv) =~= fact@.1);
            }
            state.insert(fact);
            proof {
                assert(state@ =~= old_state + set![fact@]);
            }
            true
        },
        _ => false,
    }
}

fn collect_goal_all(parts: &Vec<Formula>, state: &mut State) -> (r: bool)
    ensures
        r <==> facts_all(formulas_v(parts@)) is Some,
        r ==> final(state)@ == old(state)@ + facts_all(formulas_v(parts@))->0,
    decreases parts, 0int,
{
    let ghost fv = formulas_v(parts@);
    let ghost acc = Set::<AtomV>::empty();
    proof {
        lemma_formulas_v(parts@);
        assert(fv.subrange(0, fv.len() as int) =~= fv);
        assert(state@ =~= old(state)@ + acc);
        assert(facts_all(fv) == facts_after(acc, facts_all(fv.subrange(0, fv.len() as int)))) by {
            match facts_all(fv) {
                Some(x) => {
                    assert(acc + x =~= x);
                },
                None => {},
            }
        }
    }
    let mut i: usize = 0;
    while i < parts.len()
        invariant
            i <= parts@.len(),
            fv == formulas_v(parts@),
            fv.len() == parts@.len(),
            forall|j: int| 0 <= j < parts@.len() ==> #[trigger] fv[j] == formula_v(parts@[j]),
            state@ == old(state)@ + acc,
            facts_all(fv) == facts_after(acc, facts_all(fv.subrange(i as int, fv.len() as int))),
        decreases parts.len() - i,
    {
        proof {
            vstd::std_specs::vec::axiom_vec_index_decreases(*parts, i as int);
        }
        let ghost rest = fv.subrange(i as int, fv.len() as int);
        let ghost before = state@;
        proof {
            assert(rest[0] == fv[i as int]);
            assert(rest.subrange(1, rest.len() as int) =~= fv.subrange(i as int + 1, fv.len() as int));
        }
        if !collect_goal(&parts[i], state) {
            return false;
        }
        proof {
            let x = facts_of(fv[i as int])->0;
            assert(state@ =~= old(state)@ + (acc + x));
            match facts_all(fv.subrange(i as int + 1, fv.len() as int)) {
                Some(y) => {
                    assert(acc + (x + y) =~= (acc + x) + y);
                },
                None => {},
            }
            acc = acc + x;
        }
        i = i + 1;
    }
    proof {
        assert(fv.subrange(fv.len() as int, fv.len() as int) =~= Seq::<FormulaV>::empty());
        assert(acc + Set::<AtomV>::empty() =~= acc);
    }
    true
}

/// The atoms of a goal that is a conjunction of ground atoms, or none for any other goal.
pub fn positive_ground_goal(f: &Formula) -> (r: Option<State>)
    ensures
        r is Some <==> facts_of(formula_v(*f)) is Some,
        r matches Some(st) ==> facts_of(formula_v(*f)) == Some(st@),
{
    let mut state = State::new();
    if collect_goal(f, &mut state) {
        proof {
            assert(state@ =~= facts_of(formula_v(*f))->0);
        }
        Some(state)
    } else {
        None
    }
}

/// A ground goal holds exactly when all its atoms are true.
pub proof fn lemma_goal_holds(objs: Seq<Binding>, t: Set<AtomV>, f: Formula, env: Env)
    requires
        facts_of(formula_v(f)) is Some,
    ensures
        holds(objs, t, f, env) <==> facts_of(formula_v(f))->0.subset_of(t),
    decreases f, 1int,
{
    match f {
        Formula::Atom(a) => {
            let tv = terms_v(a.terms@);
            assert(ground(a, env) == (a.predicate@, object_names(tv))) by {
                assert forall|i: int| 0 <= i < a.terms@.len() implies term_value(#[trigger] a.terms@[i], env) == object_names(tv)[i] by {
                    assert(tv[i] is Obj);
                }
                assert(a.terms@.map_values(|x: Term| term_value(x, env)) =~= object_names(tv));
            }
        },
        Formula::And(ps) => {
            lemma_goal_holds_all(objs, t, ps@, env);
        },
        _ => {},
    }
}

proof fn lemma_goal_holds_all(objs: Seq<Binding>, t: Set<AtomV>, ps: Seq<Formula>, env: Env)
    requires
        facts_all(formulas_v(ps)) is Some,
    ensures
        holds_all(objs, t, ps, env) <==> facts_all(formulas_v(ps))->0.subset_of(t),
    decreases ps, 0int,
{
    lemma_formulas_v(ps);
    if ps.len() > 0 {
        let fv = formulas_v(ps);
        lemma_formulas_v(ps.drop_first());
        assert(fv.subrange(1, fv.len() as int) =~= formulas_v(ps.drop_first())) by {
            assert forall|i: int| 0 <= i < fv.len() - 1 implies fv.subrange(1, fv.len() as int)[i] == formulas_v(ps.drop_first())[i] by {
                assert(ps.drop_first()[i] == ps[i + 1]);
            }
        }
        assert(fv[0] == formula_v(ps[0]));
        lemma_goal_holds(objs, t, ps[0], env);
        lemma_goal_holds_all(objs, t, ps.drop_first(), env);
    } else {
        assert(formulas_v(ps) =~= Seq::<FormulaV>::empty());
    }
}

/// The goals not yet true in `s`.
pub open spec fn missing(goals: Set<AtomV>, s: Set<AtomV>) -> Set<AtomV> {
    goals.difference(s)
}

pub open spec fn ceil_div(a: nat, b: nat) -> nat {
    a / b + if a % b == 0 { 0nat } else { 1nat }
}

/// The goal-cover bound: the missing goals divided by the most goal atoms one action can add,
/// rounded up; none when goals are missing and no action can add one.
pub open spec fn cover(goals: Set<AtomV>, s: Set<AtomV>, max_goal_adds: Option<nat>) -> Option<nat> {
    if missing(goals, s).len() == 0 {
        Some(0)
    } else {
        match max_goal_adds {
            Some(m) => if m == 0 { None } else { Some(ceil_div(missing(goals, s).len(), m)) },
            None => None,
        }
    }
}

pub open spec fn usize_opt(o: Option<usize>) -> Option<nat> {
    match o {
        Some(n) => Some(n as nat),
        None => None,
    }
}

/// The goal-cover bound as the `u32` it is reported in.
pub open spec fn cover_u32(goals: Set<AtomV>, s: Set<AtomV>, max_goal_adds: Option<nat>) -> Option<u32> {
    match cover(goals, s, max_goal_adds) {
        Some(c) => Some(c as u32),
        None => None,
    }
}

/// The goal-cover bound of `state`.
pub fn goal_cover(goals: &State, state: &State, max_goal_adds: Option<usize>) -> (r: Option<u32>)
    ensures
        r == cover_u32(goals@, state@, usize_opt(max_goal_adds)),
{
    let atoms = goals.atoms();
    proof {
        goals.lemma_elements();
    }
    let ghost e = goals.elements();
    let _ = goals.len();
    let ghost mut ms: Seq<AtomV> = Seq::empty();
    let mut count: usize = 0;
    let mut i: usize = 0;
    while i < atoms.len()
        invariant
            i <= atoms@.len(),
            atoms@.map_values(|g: GroundAtom| g@) == e,
            e == goals.elements(),
            e.no_duplicates(),
            forall|x: AtomV| goals@.contains(x) <==> e.contains(x),
            count == ms.len(),
            count <= i,
            ms.no_duplicates(),
            forall|x: AtomV| ms.contains(x) <==> (exists|j: int| 0 <= j < i && e[j] == x) && !state@.contains(x),
        decreases atoms.len() - i,
    {
        proof {
            assert(e[i as int] == atoms@[i as int]@);
        }
        let ghost ms0 = ms;
        let absent = !state.contains(&atoms[i]);
        if absent {
            proof {
                assert(!ms.contains(e[i as int])) by {
                    if ms.contains(e[i as int]) {
                        let j = choose|j: int| 0 <= j < i && e[j] == e[i as int];
                    }
                }
                ms = ms.push(e[i as int]);
            }
            count = count + 1;
        }
        proof {
            assert forall|x: AtomV| ms.contains(x) <==> (exists|j: int| 0 <= j < i + 1 && e[j] == x) && !state@.contains(x) by {
                if ms.contains(x) {
                    if ms0.contains(x) {
                        let j = choose|j: int| 0 <= j < i && e[j] == x;
                        assert(0 <= j < i + 1 && e[j] == x);
                    } else {
                        assert(absent);
                        let k = choose|k: int| 0 <= k < ms.len() && ms[k] == x;
                        assert(k == ms.len() - 1);
                        assert(x == e[i as int]);
                        assert(0 <= i < i + 1 && e[i as int] == x);
                    }
                }
                if (exists|j: int| 0 <= j < i + 1 && e[j] == x) && !state@.contains(x) {
                    let j = choose|j: int| 0 <= j < i + 1 && e[j] == x;
                    if j < i {
                        assert(ms0.contains(x));
                        let k = choose|k: int| 0 <= k < ms0.len() && ms0[k] == x;
                        assert(ms[k] == x);
                    } else {
                        assert(absent);
                        assert(ms[ms.len() - 1] == x);
                    }
                }
            }
        }
        i = i + 1;
    }
    proof {
        assert(ms.to_set() =~= missing(goals@, state@));
        ms.unique_seq_to_set();
    }
    if count == 0 {
        return Some(0);
    }
    match max_goal_adds {
        None => None,
        Some(m) => {
            if m == 0 {
                None
            } else {
                proof {
                    assert(count / m <= count) by (nonlinear_arith)
                        requires
                            m >= 1,
                    ;
                    assert(count % m != 0 ==> count / m < count) by (nonlinear_arith)
                        requires
                            m >= 1,
                            count >= 1,
                    ;
                }
                let c = count / m + if count % m == 0 { 0 } else { 1 };
                Some(c as u32)
            }
        },
    }
}

/// Whether some goal atom has the predicate and arity of `v`.
pub open spec fn goal_like(v: (Seq<char>, Seq<TermV>), goals: Set<AtomV>) -> bool {
    exists|g: AtomV| goals.contains(g) && g.0 == v.0 && g.1.len() == v.1.len()
}

/// The distinct add effects of a schema that could make a goal atom true.
pub open spec fn goal_adds(schema: Action, goals: Set<AtomV>) -> Set<(Seq<char>, Seq<TermV>)> {
    Set::new(|v: (Seq<char>, Seq<TermV>)| goal_like(v, goals) && exists|j: int| 0 <= j < schema.add@.len() && atom_v(#[trigger] schema.add@[j]) == v)
}

/// The most goal-like add effects among the first `k` schemas.
pub open spec fn goal_add_bound(task: Task, goals: Set<AtomV>, k: int) -> nat
    decreases k,
{
    if k <= 0 {
        0
    } else {
        let rest = goal_add_bound(task, goals, k - 1);
        let here = goal_adds(task.actions@[k - 1], goals).len();
        if here > rest { here } else { rest }
    }
}

/// Whether two atoms are the same predicate over the same terms.
fn atoms_equal(a: &Atom, b: &Atom) -> (r: bool)
    ensures
        r == (atom_v(*a) == atom_v(*b)),
{
    if a.predicate != b.predicate || a.terms.len() != b.terms.len() {
        proof {
            if atom_v(*a) == atom_v(*b) {
                assert(terms_v(a.terms@).len() == terms_v(b.terms@).len());
            }
        }
        return false;
    }
    let mut i: usize = 0;
    while i < a.terms.len()
        invariant
            i <= a.terms@.len(),
            a.terms@.len() == b.terms@.len(),
            forall|j: int| 0 <= j < i ==> term_v(#[trigger] a.terms@[j]) == term_v(b.terms@[j]),
        decreases a.terms.len() - i,
    {
        let same = match (&a.terms[i], &b.terms[i]) {
            (Term::Variable(x), Term::Variable(y)) => *x == *y,
            (Term::Constant(x), Term::Constant(y)) => *x == *y,
            _ => false,
        };
        if !same {
            proof {
                if atom_v(*a) == atom_v(*b) {
                    assert(terms_v(a.terms@)[i as int] == terms_v(b.terms@)[i as int]);
                }
            }
            return false;
        }
        i = i + 1;
    }
    proof {
        assert(terms_v(a.terms@) =~= terms_v(b.terms@));
    }
    true
}

/// Whether some goal atom has the predicate and arity of `a`.
fn goal_like_exec(a: &Atom, goals: &State) -> (r: bool)
    ensures
        r == goal_like(atom_v(*a), goals@),
{
    let atoms = goals.atoms();
    proof {
        goals.lemma_elements();
    }
    let mut i: usize = 0;
    while i < atoms.len()
        invariant
            i <= atoms@.len(),
            atoms@.map_values(|g: GroundAtom| g@) == goals.elements(),
            forall|x: AtomV| goals@.contains(x) <==> goals.elements().contains(x),
            forall|j: int| 0 <= j < i ==> !((#[trigger] atoms@[j])@.0 == a.predicate@ && atoms@[j]@.1.len() == a.terms@.len()),
        decreases atoms.len() - i,
    {
        if atoms[i].predicate == a.predicate && atoms[i].arguments.len() == a.terms.len() {
            proof {
                assert(goals.elements()[i as int] == atoms@[i as int]@);
                assert(goals@.contains(atoms@[i as int]@));
                assert(terms_v(a.terms@).len() == a.terms@.len());
            }
            return true;
        }
        i = i + 1;
    }
    proof {
        if goal_like(atom_v(*a), goals@) {
            let g = choose|g: AtomV| goals@.contains(g) && g.0 == atom_v(*a).0 && g.1.len() == atom_v(*a).1.len();
            let j = choose|j: int| 0 <= j < goals.elements().len() && goals.elements()[j] == g;
            assert(atoms@[j]@ == g);
        }
    }
    false
}

/// The number of distinct goal-like add effects of a schema.
fn count_goal_adds(schema: &Action, goals: &State) -> (n: usize)
    ensures
        n == goal_adds(*schema, goals@).len(),
{
    let mut distinct: Vec<&Atom> = Vec::new();
    let ghost mut vs: Seq<(Seq<char>, Seq<TermV>)> = Seq::empty();
    let mut j: usize = 0;
    while j < schema.add.len()
        invariant
            j <= schema.add@.len(),
            vs.len() == distinct@.len(),
            distinct@.len() <= j,
            forall|i: int| 0 <= i < distinct@.len() ==> #[trigger] vs[i] == atom_v(*distinct@[i]),
            vs.no_duplicates(),
            forall|v: (Seq<char>, Seq<TermV>)| vs.contains(v) <==> (goal_like(v, goals@) && exists|i: int|
                0 <= i < j && atom_v(#[trigger] schema.add@[i]) == v),
        decreases schema.add.len() - j,
    {
        let a = &schema.add[j];
        let ghost av = atom_v(*a);
        let ghost vs0 = vs;
        if goal_like_exec(a, goals) {
            let mut seen = false;
            let mut q: usize = 0;
            while q < distinct.len()
                invariant
                    q <= distinct@.len(),
                    av == atom_v(*a),
                    vs.len() == distinct@.len(),
                    forall|i: int| 0 <= i < distinct@.len() ==> #[trigger] vs[i] == atom_v(*distinct@[i]),
                    seen ==> vs.contains(av),
                    !seen ==> forall|i: int| 0 <= i < q ==> vs[i] != av,
                decreases distinct.len() - q,
            {
                if atoms_equal(distinct[q], a) {
                    proof {
                        assert(vs[q as int] == av);
                    }
                    seen = true;
                }
                q = q + 1;
            }
            if !seen {
                distinct.push(a);
                proof {
                    vs = vs.push(av);
                }
            }
        }
        proof {
            assert forall|i: int| 0 <= i < distinct@.len() implies #[trigger] vs[i] == atom_v(*distinct@[i]) by {
                if i < vs0.len() {
                    assert(vs[i] == vs0[i]);
                }
            }
            assert(vs.no_duplicates()) by {
                assert forall|x: int, y: int| 0 <= x < vs.len() && 0 <= y < vs.len() && x != y implies vs[x] != vs[y] by {
                    if x < vs0.len() && y < vs0.len() {
                        assert(vs[x] == vs0[x] && vs[y] == vs0[y]);
                    } else if x < vs0.len() {
                        assert(vs[x] == vs0[x]);
                    } else {
                        assert(vs[y] == vs0[y]);
                    }
                }
            }
            assert forall|v: (Seq<char>, Seq<TermV>)| vs.contains(v) <==> (goal_like(v, goals@) && exists|i: int|
                0 <= i < j + 1 && atom_v(#[trigger] schema.add@[i]) == v) by {
                if vs.contains(v) {
                    if vs0.contains(v) {
                        let i = choose|i: int| 0 <= i < j && atom_v(#[trigger] schema.add@[i]) == v;
                        assert(0 <= i < j + 1 && atom_v(schema.add@[i]) == v);
                    } else {
                        let k = choose|k: int| 0 <= k < vs.len() && vs[k] == v;
                        assert(k == vs.len() - 1);
                        assert(atom_v(schema.add@[j as int]) == v);
                    }
                }
                if goal_like(v, goals@) && exists|i: int| 0 <= i < j + 1 && atom_v(#[trigger] schema.add@[i]) == v {
                    let i = choose|i: int| 0 <= i < j + 1 && atom_v(#[trigger] schema.add@[i]) == v;
                    if i < j {
                        assert(vs0.contains(v));
                        let k = choose|k: int| 0 <= k < vs0.len() && vs0[k] == v;
                        assert(vs[k] == v);
                    } else {
                        if vs0.contains(v) {
                            let k = choose|k: int| 0 <= k < vs0.len() && vs0[k] == v;
                            assert(vs[k] == v);
                        } else {
                            assert(vs[vs.len() - 1] == v);
                        }
                    }
                }
            }
        }
        j = j + 1;
    }
    proof {
        assert(vs.to_set() =~= goal_adds(*schema, goals@));
        vs.unique_seq_to_set();
    }
    distinct.len()
}

/// The most distinct add effects of one schema that could make a goal atom true: no action
/// makes more goal atoms true at once.
pub fn goal_add_upper_bound(task: &Task, goals: &State) -> (r: usize)
    ensures
        r == goal_add_bound(*task, goals@, task.actions@.len() as int),
{
    let mut best: usize = 0;
    let mut k: usize = 0;
    while k < task.actions.len()
        invariant
            k <= task.actions@.len(),
            best == goal_add_bound(*task, goals@, k as int),
        decreases task.actions.len() - k,
    {
        let n = count_goal_adds(&task.actions[k], goals);
        if n > best {
            best = n;
        }
        k = k + 1;
    }
    best
}

// ----------------------------------------------------------------------------------------------
// The relaxed model of a task
// ----------------------------------------------------------------------------------------------

/// The ground atoms an action instance needs wherever it applies: those its precondition
/// reaches through conjunctions.
pub open spec fn needed(schema: Action, args: Seq<Seq<char>>) -> Set<AtomV> {
    Set::new(|x: AtomV| exists|a: Atom| #[trigger] conj_atom(schema.precondition, a) && ground(a, action_env(schema, args)) == x)
}

/// The relaxation of the instance of schema `k` with `args`: what it needs and what it adds.
pub open spec fn relaxation(task: Task, k: int, args: Seq<Seq<char>>) -> (Set<AtomV>, Set<AtomV>) {
    (needed(task.actions@[k], args), added(task.actions@[k], args))
}

/// Whether `r` is the relaxation of the instance of schema `k` with `args`.
#[verifier::opaque]
pub open spec fn relaxes(task: Task, k: int, args: Seq<Seq<char>>, r: (Set<AtomV>, Set<AtomV>)) -> bool {
    r == relaxation(task, k, args)
}

/// Whether `r` is the relaxation of some well-typed action instance of the task.
pub open spec fn relaxes_some(task: Task, r: (Set<AtomV>, Set<AtomV>)) -> bool {
    exists|k: int, args: Seq<Seq<char>>|
        0 <= k < task.actions@.len() && args_ok(task, task.actions@[k], args) && #[trigger] relaxes(task, k, args, r)
}

/// Whether `m` holds the relaxation of the instance of schema `k` with `args`.
pub open spec fn holds_relaxation(task: Task, m: Seq<(Set<AtomV>, Set<AtomV>)>, k: int, args: Seq<Seq<char>>) -> bool {
    exists|i: int| 0 <= i < m.len() && #[trigger] relaxes(task, k, args, m[i])
}

/// Whether `m` holds the relaxation of every well-typed action instance of the task, and
/// nothing else.
pub open spec fn model_of(task: Task, m: Seq<(Set<AtomV>, Set<AtomV>)>) -> bool {
    &&& forall|i: int| 0 <= i < m.len() ==> relaxes_some(task, #[trigger] m[i])
    &&& forall|k: int, args: Seq<Seq<char>>| 0 <= k < task.actions@.len() && #[trigger] args_ok(task, task.actions@[k], args)
        ==> holds_relaxation(task, m, k, args)
}

/// The relaxations of a list of all well-typed action instances form the model of the task.
proof fn lemma_model_of(task: Task, gv: Seq<(int, Seq<Seq<char>>)>, m: Seq<(Set<AtomV>, Set<AtomV>)>)
    requires
        m.len() == gv.len(),
        forall|i: int| 0 <= i < gv.len() ==> 0 <= (#[trigger] gv[i]).0 < task.actions@.len()
            && args_ok(task, task.actions@[gv[i].0], gv[i].1) && relaxes(task, gv[i].0, gv[i].1, m[i]),
        forall|k: int, args: Seq<Seq<char>>| 0 <= k < task.actions@.len() && #[trigger] args_ok(task, task.actions@[k], args)
            ==> exists|i: int| 0 <= i < gv.len() && gv[i].0 == k && gv[i].1 == args,
    ensures
        model_of(task, m),
{
    assert forall|i: int| 0 <= i < m.len() implies relaxes_some(task, #[trigger] m[i]) by {
        assert(relaxes(task, gv[i].0, gv[i].1, m[i]));
    }
    assert forall|k: int, args: Seq<Seq<char>>| 0 <= k < task.actions@.len() && #[trigger] args_ok(task, task.actions@[k], args)
        implies holds_relaxation(task, m, k, args) by {
        let i = choose|i: int| 0 <= i < gv.len() && gv[i].0 == k && gv[i].1 == args;
        assert(relaxes(task, gv[i].0, gv[i].1, m[i]));
    }
}

/// A conjunction reaches an atom exactly when one of its parts does.
pub proof fn lemma_conj_atom_any(ps: Seq<Formula>, a: Atom)
    ensures
        conj_atom_any(ps, a) <==> exists|i: int| 0 <= i < ps.len() && #[trigger] conj_atom(ps[i], a),
    decreases ps.len(),
{
    if ps.len() > 0 {
        lemma_conj_atom_any(ps.drop_first(), a);
        if conj_atom_any(ps, a) && !conj_atom(ps[0], a) {
            let i = choose|i: int| 0 <= i < ps.drop_first().len() && #[trigger] conj_atom(ps.drop_first()[i], a);
            assert(conj_atom(ps[i + 1], a));
        }
        if exists|i: int| 0 <= i < ps.len() && #[trigger] conj_atom(ps[i], a) {
            let i = choose|i: int| 0 <= i < ps.len() && #[trigger] conj_atom(ps[i], a);
            lemma_conj_atom_any_member(ps, i, a);
        }
    }
}

/// Appends the atoms `f` reaches through conjunctions.
fn relaxed_atoms<'a>(f: &'a Formula, out: &mut Vec<&'a Atom>)
    ensures
        final(out)@.len() >= old(out)@.len(),
        forall|i: int| 0 <= i < old(out)@.len() ==> final(out)@[i] == old(out)@[i],
        forall|i: int| old(out)@.len() <= i < final(out)@.len() ==> conj_atom(*f, *#[trigger] final(out)@[i]),
        forall|a: Atom| #[trigger] conj_atom(*f, a) ==> exists|i: int| old(out)@.len() <= i < final(out)@.len() && *final(out)@[i] == a,
    decreases f, 1int,
{
    match f {
        Formula::Atom(a) => {
            let ghost n = out@.len();
            out.push(a);
            proof {
                assert(*out@[n as int] == *a);
                assert forall|b: Atom| #[trigger] conj_atom(*f, b) implies exists|i: int|
                    old(out)@.len() <= i < out@.len() && *out@[i] == b by {
                    assert(b == *a);
                    assert(*out@[n as int] == b);
                }
            }
        },
        Formula::And(parts) => {
            relaxed_atoms_all(parts, out);
            proof {
                assert forall|b: Atom| #[trigger] conj_atom(*f, b) implies exists|i: int|
                    old(out)@.len() <= i < out@.len() && *out@[i] == b by {
                    assert(conj_atom_any(parts@, b));
                }
                assert forall|i: int| old(out)@.len() <= i < out@.len() implies conj_atom(*f, *#[trigger] out@[i]) by {
                    assert(conj_atom_any(parts@, *out@[i]));
                }
            }
        },
        _ => {
            proof {
                assert forall|b: Atom| !#[trigger] conj_atom(*f, b) by {}
            }
        },
    }
}

fn relaxed_atoms_all<'a>(parts: &'a Vec<Formula>, out: &mut Vec<&'a Atom>)
    ensures
        final(out)@.len() >= old(out)@.len(),
        forall|i: int| 0 <= i < old(out)@.len() ==> final(out)@[i] == old(out)@[i],
        forall|i: int| old(out)@.len() <= i < final(out)@.len() ==> conj_atom_any(parts@, *#[trigger] final(out)@[i]),
        forall|a: Atom| #[trigger] conj_atom_any(parts@, a) ==> exists|i: int|
            old(out)@.len() <= i < final(out)@.len() && *final(out)@[i] == a,
    decreases parts, 0int,
{
    let ghost start = out@.len();
    let mut j: usize = 0;
    while j < parts.len()
        invariant
            j <= parts@.len(),
            start == old(out)@.len(),
            out@.len() >= start,
            forall|i: int| 0 <= i < start ==> out@[i] == old(out)@[i],
            forall|i: int| start <= i < out@.len() ==> exists|j2: int| 0 <= j2 < parts@.len() && conj_atom(parts@[j2], *#[trigger] out@[i]),
            forall|a: Atom, j2: int| 0 <= j2 < j && #[trigger] conj_atom(parts@[j2], a) ==> exists|i: int|
                start <= i < out@.len() && *out@[i] == a,
        decreases parts.len() - j,
    {
        proof {
            vstd::std_specs::vec::axiom_vec_index_decreases(*parts, j as int);
        }
        let ghost before = out@;
        relaxed_atoms(&parts[j], out);
        proof {
            assert forall|i: int| start <= i < out@.len() implies exists|j2: int| 0 <= j2 < parts@.len() && conj_atom(parts@[j2], *#[trigger] out@[i]) by {
                if i < before.len() {
                    assert(out@[i] == before[i]);
                } else {
                    assert(conj_atom(parts@[j as int], *out@[i]));
                }
            }
            assert forall|a: Atom, j2: int| 0 <= j2 < j + 1 && #[trigger] conj_atom(parts@[j2], a) implies exists|i: int|
                start <= i < out@.len() && *out@[i] == a by {
                if j2 < j {
                    let i = choose|i: int| start <= i < before.len() && *before[i] == a;
                    assert(out@[i] == before[i]);
                }
            }
        }
        j = j + 1;
    }
    proof {
        assert forall|i: int| start <= i < out@.len() implies conj_atom_any(parts@, *#[trigger] out@[i]) by {
            lemma_conj_atom_any(parts@, *out@[i]);
        }
        assert forall|a: Atom| #[trigger] conj_atom_any(parts@, a) implies exists|i: int|
            start <= i < out@.len() && *out@[i] == a by {
            lemma_conj_atom_any(parts@, a);
            let j2 = choose|j2: int| 0 <= j2 < parts@.len() && #[trigger] conj_atom(parts@[j2], a);
        }
    }
}

/// Whether the first objects of `prefix` fit the types of the first parameters of `schema`.
pub open spec fn typed_prefix(task: Task, schema: Action, prefix: Seq<Seq<char>>) -> bool {
    &&& prefix.len() <= schema.parameters@.len()
    &&& forall|i: int| 0 <= i < prefix.len() ==> object_ok(task.objects@, #[trigger] prefix[i], Some(schema.parameters@[i].ty@))
}

/// A grounded instance as a schema index and the names of its arguments.
pub open spec fn instance_key(e: (usize, Vec<String>)) -> (int, Seq<Seq<char>>) {
    (e.0 as int, e.1.deep_view())
}

/// Whether the entries from `lo` to `hi` name pairwise different instances.
pub open spec fn distinct_instances(out: Seq<(usize, Vec<String>)>, lo: int, hi: int) -> bool {
    forall|a: int, b: int| lo <= a < b < hi ==> #[trigger] instance_key(out[a]) != #[trigger] instance_key(out[b])
}

/// Appends every well-typed completion of `prefix` as an instance of schema `k`.
fn extend_arguments(task: &Task, k: usize, prefix: &mut Vec<String>, out: &mut Vec<(usize, Vec<String>)>)
    requires
        k < task.actions@.len(),
        typed_prefix(*task, task.actions@[k as int], old(prefix).deep_view()),
    ensures
        final(prefix)@ == old(prefix)@,
        final(out)@.len() >= old(out)@.len(),
        forall|i: int| 0 <= i < old(out)@.len() ==> final(out)@[i] == old(out)@[i],
        forall|i: int| old(out)@.len() <= i < final(out)@.len() ==> (#[trigger] final(out)@[i]).0 == k
            && args_ok(*task, task.actions@[k as int], final(out)@[i].1.deep_view()),
        forall|args: Seq<Seq<char>>| #[trigger] args_ok(*task, task.actions@[k as int], args)
            && args.subrange(0, old(prefix)@.len() as int) == old(prefix).deep_view() ==> exists|i: int|
            old(out)@.len() <= i < final(out)@.len() && final(out)@[i].0 == k && final(out)@[i].1.deep_view() == args,
        forall|i: int| old(out)@.len() <= i < final(out)@.len() ==> (#[trigger] final(out)@[i]).1.deep_view().subrange(
            0,
            old(prefix)@.len() as int,
        ) == old(prefix).deep_view(),
        crate::logic::objects_ok(*task) ==> distinct_instances(final(out)@, old(out)@.len() as int, final(out)@.len() as int),
    decreases task.actions@[k as int].parameters@.len() - old(prefix)@.len(),
{
    let schema = &task.actions[k];
    let ghost p0 = prefix.deep_view();
    if prefix.len() == schema.parameters.len() {
        let ghost before = out@;
        let args = crate::text::copy_strings(prefix);
        out.push((k, args));
        proof {
            assert(args.deep_view() =~= p0);
            assert(args.deep_view().subrange(0, p0.len() as int) =~= p0);
            assert forall|a: Seq<Seq<char>>| #[trigger] args_ok(*task, task.actions@[k as int], a)
                && a.subrange(0, p0.len() as int) == p0 implies exists|i: int|
                before.len() <= i < out@.len() && out@[i].0 == k && out@[i].1.deep_view() == a by {
                assert(a =~= a.subrange(0, p0.len() as int));
                assert(out@[before.len() as int].1.deep_view() == a);
            }
        }
        return;
    }
    let q = prefix.len();
    let param_ty = &schema.parameters[q].ty;
    let any = crate::text::is_object_type(param_ty);
    let ghost start = out@.len();
    let ghost out0 = out@;
    let ghost praw = prefix@;
    let mut j: usize = 0;
    while j < task.objects.len()
        invariant
            j <= task.objects@.len(),
            prefix@ == praw,
            old(prefix)@ == praw,
            k < task.actions@.len(),
            *schema == task.actions@[k as int],
            q == prefix@.len(),
            q < schema.parameters@.len(),
            prefix.deep_view() == p0,
            p0.len() == q,
            typed_prefix(*task, *schema, p0),
            *param_ty == schema.parameters@[q as int].ty,
            any == (param_ty@ == "object"@),
            start == out0.len(),
            out@.len() >= start,
            forall|i: int| 0 <= i < start ==> out@[i] == out0[i],
            forall|i: int| start <= i < out@.len() ==> (#[trigger] out@[i]).0 == k
                && args_ok(*task, task.actions@[k as int], out@[i].1.deep_view()),
            forall|args: Seq<Seq<char>>| #[trigger] args_ok(*task, task.actions@[k as int], args)
                && args.subrange(0, q as int) == p0
                && (exists|j2: int| 0 <= j2 < j && task.objects@[j2].name@ == args[q as int]
                    && crate::logic::expected_ok(task.objects@[j2].ty@, Some(param_ty@))) ==> exists|i: int|
                start <= i < out@.len() && out@[i].0 == k && out@[i].1.deep_view() == args,
            forall|i: int| start <= i < out@.len() ==> (#[trigger] out@[i]).1.deep_view().subrange(0, q as int) == p0
                && exists|j2: int| 0 <= j2 < j && out@[i].1.deep_view()[q as int] == #[trigger] task.objects@[j2].name@,
            crate::logic::objects_ok(*task) ==> distinct_instances(out@, start as int, out@.len() as int),
        decreases task.objects.len() - j,
    {
        let object = &task.objects[j];
        if any || object.ty == *param_ty {
            let ghost out1 = out@;
            prefix.push(object.name.clone());
            proof {
                assert(prefix.deep_view() =~= p0.push(object.name@));
                assert(typed_prefix(*task, *schema, prefix.deep_view())) by {
                    assert forall|i: int| 0 <= i < prefix.deep_view().len() implies object_ok(task.objects@,
                        #[trigger] prefix.deep_view()[i], Some(schema.parameters@[i].ty@)) by {
                        if i < q {
                            assert(prefix.deep_view()[i] == p0[i]);
                        } else {
                            assert(task.objects@[j as int].name@ == prefix.deep_view()[i]);
                        }
                    }
                }
            }
            extend_arguments(task, k, prefix, out);
            prefix.pop();
            proof {
                assert(prefix@ =~= praw);
                assert(prefix.deep_view() =~= p0);
                assert forall|i: int| 0 <= i < start implies out@[i] == out0[i] by {
                    assert(out@[i] == out1[i]);
                }
                assert forall|i: int| start <= i < out@.len() implies (#[trigger] out@[i]).0 == k
                    && args_ok(*task, task.actions@[k as int], out@[i].1.deep_view()) by {
                    if i < out1.len() {
                        assert(out@[i] == out1[i]);
                    }
                }
                let pj = p0.push(object.name@);
                assert forall|i: int| start <= i < out@.len() implies (#[trigger] out@[i]).1.deep_view().subrange(0, q as int) == p0
                    && exists|j2: int| 0 <= j2 < j + 1 && out@[i].1.deep_view()[q as int] == #[trigger] task.objects@[j2].name@ by {
                    if i < out1.len() {
                        assert(out@[i] == out1[i]);
                        let j2 = choose|j2: int| 0 <= j2 < j && out1[i].1.deep_view()[q as int] == #[trigger] task.objects@[j2].name@;
                        assert(0 <= j2 < j + 1 && out@[i].1.deep_view()[q as int] == task.objects@[j2].name@);
                    } else {
                        let d = out@[i].1.deep_view();
                        assert(d.subrange(0, q + 1) == pj);
                        assert(d.subrange(0, q as int) =~= pj.subrange(0, q as int));
                        assert(pj.subrange(0, q as int) =~= p0);
                        assert(d[q as int] == pj[q as int]);
                        assert(0 <= j < j + 1 && d[q as int] == task.objects@[j as int].name@);
                    }
                }
                if crate::logic::objects_ok(*task) {
                    assert forall|a: int, b: int| start <= a < b < out@.len() implies #[trigger] instance_key(out@[a])
                        != #[trigger] instance_key(out@[b]) by {
                        if b < out1.len() {
                            assert(out@[a] == out1[a]);
                            assert(out@[b] == out1[b]);
                        } else if a < out1.len() {
                            assert(out@[a] == out1[a]);
                            let j2 = choose|j2: int| 0 <= j2 < j && out1[a].1.deep_view()[q as int] == #[trigger] task.objects@[j2].name@;
                            let db = out@[b].1.deep_view();
                            assert(db.subrange(0, q + 1) == pj);
                            assert(db[q as int] == pj[q as int]);
                            assert(task.objects@[j2].name@ != task.objects@[j as int].name@);
                        }
                    }
                }
                assert forall|args: Seq<Seq<char>>| #[trigger] args_ok(*task, task.actions@[k as int], args)
                    && args.subrange(0, q as int) == p0
                    && (exists|j2: int| 0 <= j2 < j + 1 && task.objects@[j2].name@ == args[q as int]
                        && crate::logic::expected_ok(task.objects@[j2].ty@, Some(param_ty@))) implies exists|i: int|
                    start <= i < out@.len() && out@[i].0 == k && out@[i].1.deep_view() == args by {
                    let j2 = choose|j2: int| 0 <= j2 < j + 1 && task.objects@[j2].name@ == args[q as int]
                        && crate::logic::expected_ok(task.objects@[j2].ty@, Some(param_ty@));
                    if j2 < j {
                        let i = choose|i: int| start <= i < out1.len() && out1[i].0 == k && out1[i].1.deep_view() == args;
                        assert(out@[i] == out1[i]);
                    } else {
                        assert(args.subrange(0, q + 1) =~= p0.push(object.name@));
                    }
                }
            }
        }
        j = j + 1;
    }
    proof {
        assert forall|args: Seq<Seq<char>>| #[trigger] args_ok(*task, task.actions@[k as int], args)
            && args.subrange(0, q as int) == p0 implies exists|i: int|
            start <= i < out@.len() && out@[i].0 == k && out@[i].1.deep_view() == args by {
            assert(object_ok(task.objects@, args[q as int], Some(schema.parameters@[q as int].ty@)));
        }
    }
}

/// Every well-typed instance of every schema, as its schema index and arguments.
pub fn ground_actions(task: &Task) -> (r: Vec<(usize, Vec<String>)>)
    ensures
        forall|i: int| 0 <= i < r@.len() ==> (#[trigger] r@[i]).0 < task.actions@.len()
            && args_ok(*task, task.actions@[r@[i].0 as int], r@[i].1.deep_view()),
        forall|k: int, args: Seq<Seq<char>>| 0 <= k < task.actions@.len() && #[trigger] args_ok(*task, task.actions@[k], args)
            ==> exists|i: int| 0 <= i < r@.len() && r@[i].0 == k && r@[i].1.deep_view() == args,
        crate::logic::objects_ok(*task) ==> distinct_instances(r@, 0, r@.len() as int),
{
    let mut out: Vec<(usize, Vec<String>)> = Vec::new();
    let mut k: usize = 0;
    while k < task.actions.len()
        invariant
            k <= task.actions@.len(),
            forall|i: int| 0 <= i < out@.len() ==> (#[trigger] out@[i]).0 < k
                && args_ok(*task, task.actions@[out@[i].0 as int], out@[i].1.deep_view()),
            forall|k2: int, args: Seq<Seq<char>>| 0 <= k2 < k && #[trigger] args_ok(*task, task.actions@[k2], args)
                ==> exists|i: int| 0 <= i < out@.len() && out@[i].0 == k2 && out@[i].1.deep_view() == args,
            crate::logic::objects_ok(*task) ==> distinct_instances(out@, 0, out@.len() as int),
        decreases task.actions.len() - k,
    {
        let mut prefix: Vec<String> = Vec::new();
        let ghost before = out@;
        proof {
            assert(prefix.deep_view() =~= Seq::<Seq<char>>::empty());
        }
        extend_arguments(task, k, &mut prefix, &mut out);
        proof {
            assert forall|i: int| 0 <= i < out@.len() implies (#[trigger] out@[i]).0 < k + 1
                && args_ok(*task, task.actions@[out@[i].0 as int], out@[i].1.deep_view()) by {
                if i < before.len() {
                    assert(out@[i] == before[i]);
                }
            }
            assert forall|k2: int, args: Seq<Seq<char>>| 0 <= k2 < k + 1 && #[trigger] args_ok(*task, task.actions@[k2], args)
                implies exists|i: int| 0 <= i < out@.len() && out@[i].0 == k2 && out@[i].1.deep_view() == args by {
                if k2 < k {
                    let i = choose|i: int| 0 <= i < before.len() && before[i].0 == k2 && before[i].1.deep_view() == args;
                    assert(out@[i] == before[i]);
                } else {
                    assert(args.subrange(0, 0) =~= Seq::<Seq<char>>::empty());
                }
            }
            if crate::logic::objects_ok(*task) {
                assert forall|a: int, b: int| 0 <= a < b < out@.len() implies #[trigger] instance_key(out@[a])
                    != #[trigger] instance_key(out@[b]) by {
                    if b < before.len() {
                        assert(out@[a] == before[a]);
                        assert(out@[b] == before[b]);
                    } else if a < before.len() {
                        assert(out@[a] == before[a]);
                    }
                }
            }
        }
        k = k + 1;
    }
    out
}

/// The relaxation of each given action instance.
pub fn build_relaxed_model(task: &Task, grounded: &Vec<(usize, Vec<String>)>) -> (r: Vec<RelaxedAction>)
    requires
        task_valid(*task),
        forall|i: int| 0 <= i < grounded@.len() ==> (#[trigger] grounded@[i]).0 < task.actions@.len()
            && args_ok(*task, task.actions@[grounded@[i].0 as int], grounded@[i].1.deep_view()),
    ensures
        r@.len() == grounded@.len(),
        forall|i: int| 0 <= i < r@.len() ==> relaxed_view(#[trigger] r@[i]) == relaxation(*task, grounded@[i].0 as int, grounded@[i].1.deep_view()),
{
    let mut model: Vec<RelaxedAction> = Vec::new();
    let mut g: usize = 0;
    while g < grounded.len()
        invariant
            g <= grounded@.len(),
            task_valid(*task),
            forall|i: int| 0 <= i < grounded@.len() ==> (#[trigger] grounded@[i]).0 < task.actions@.len()
                && args_ok(*task, task.actions@[grounded@[i].0 as int], grounded@[i].1.deep_view()),
            model@.len() == g,
            forall|i: int| 0 <= i < g ==> relaxed_view(#[trigger] model@[i]) == relaxation(*task, grounded@[i].0 as int, grounded@[i].1.deep_view()),
        decreases grounded.len() - g,
    {
        let k = grounded[g].0;
        let arguments = &grounded[g].1;
        let schema = &task.actions[k];
        let ghost args = arguments.deep_view();
        let ghost aenv = action_env(*schema, args);
        let ghost scope = binding_scope(schema.parameters@);
        proof {
            assert(action_ok(*task, *schema));
            assert(args_ok(*task, *schema, args));
            assert(same_names(aenv, scope));
        }
        let env = action_environment(schema, arguments);
        let mut atoms: Vec<&Atom> = Vec::new();
        relaxed_atoms(&schema.precondition, &mut atoms);
        let mut preconditions = State::new();
        let mut i: usize = 0;
        while i < atoms.len()
            invariant
                i <= atoms@.len(),
                env_view(env@) == aenv,
                aenv == action_env(*schema, args),
                same_names(aenv, scope),
                scope == binding_scope(schema.parameters@),
                action_ok(*task, *schema),
                forall|j: int| 0 <= j < atoms@.len() ==> conj_atom(schema.precondition, *#[trigger] atoms@[j]),
                preconditions@ == Set::new(|x: AtomV| exists|j: int| 0 <= j < i && ground(*#[trigger] atoms@[j], aenv) == x),
            decreases atoms.len() - i,
        {
            proof {
                lemma_conj_atom_ok(*task, schema.precondition, *atoms@[i as int], scope);
                crate::logic::lemma_atom_bound(*task, *atoms@[i as int], scope, aenv);
            }
            let atom = crate::logic::ground_atom(atoms[i], &env);
            let ghost before = preconditions@;
            preconditions.insert(atom);
            proof {
                assert(preconditions@ =~= Set::new(|x: AtomV| exists|j: int| 0 <= j < i + 1 && ground(*#[trigger] atoms@[j], aenv) == x)) by {
                    assert forall|x: AtomV| (exists|j: int| 0 <= j < i + 1 && ground(*#[trigger] atoms@[j], aenv) == x)
                        <==> before.contains(x) || x == ground(*atoms@[i as int], aenv) by {
                        if exists|j: int| 0 <= j < i + 1 && ground(*#[trigger] atoms@[j], aenv) == x {
                            let j = choose|j: int| 0 <= j < i + 1 && ground(*#[trigger] atoms@[j], aenv) == x;
                            if j < i {
                                assert(before.contains(x));
                            }
                        }
                        if before.contains(x) {
                            let j = choose|j: int| 0 <= j < i && ground(*#[trigger] atoms@[j], aenv) == x;
                            assert(0 <= j < i + 1);
                        }
                    }
                }
            }
            i = i + 1;
        }
        proof {
            assert(preconditions@ =~= needed(*schema, args)) by {
                assert forall|x: AtomV| preconditions@.contains(x) <==> needed(*schema, args).contains(x) by {
                    if needed(*schema, args).contains(x) {
                        let a = choose|a: Atom| #[trigger] conj_atom(schema.precondition, a) && ground(a, aenv) == x;
                        let j = choose|j: int| 0 <= j < atoms@.len() && *atoms@[j] == a;
                        assert(ground(*atoms@[j], aenv) == x);
                    }
                    if preconditions@.contains(x) {
                        let j = choose|j: int| 0 <= j < atoms@.len() && ground(*#[trigger] atoms@[j], aenv) == x;
                        assert(conj_atom(schema.precondition, *atoms@[j]));
                    }
                }
            }
        }
        let mut add = State::new();
        let mut i: usize = 0;
        while i < schema.add.len()
            invariant
                i <= schema.add@.len(),
                env_view(env@) == aenv,
                aenv == action_env(*schema, args),
                same_names(aenv, scope),
                scope == binding_scope(schema.parameters@),
                action_ok(*task, *schema),
                add@ == Set::new(|x: AtomV| exists|j: int| 0 <= j < i && ground(#[trigger] schema.add@[j], aenv) == x),
            decreases schema.add.len() - i,
        {
            proof {
                crate::logic::lemma_atom_bound(*task, schema.add@[i as int], scope, aenv);
            }
            let atom = crate::logic::ground_atom(&schema.add[i], &env);
            let ghost before = add@;
            add.insert(atom);
            proof {
                assert(add@ =~= Set::new(|x: AtomV| exists|j: int| 0 <= j < i + 1 && ground(#[trigger] schema.add@[j], aenv) == x)) by {
                    assert forall|x: AtomV| (exists|j: int| 0 <= j < i + 1 && ground(#[trigger] schema.add@[j], aenv) == x)
                        <==> before.contains(x) || x == ground(schema.add@[i as int], aenv) by {
                        if exists|j: int| 0 <= j < i + 1 && ground(#[trigger] schema.add@[j], aenv) == x {
                            let j = choose|j: int| 0 <= j < i + 1 && ground(#[trigger] schema.add@[j], aenv) == x;
                            if j < i {
                                assert(before.contains(x));
                            }
                        }
                        if before.contains(x) {
                            let j = choose|j: int| 0 <= j < i && ground(#[trigger] schema.add@[j], aenv) == x;
                            assert(0 <= j < i + 1);
                        }
                    }
                }
            }
            i = i + 1;
        }
        proof {
            assert(add@ =~= added(*schema, args));
        }
        let ghost before = model@;
        model.push(RelaxedAction { preconditions, add });
        proof {
            assert forall|i: int| 0 <= i < g + 1 implies relaxed_view(#[trigger] model@[i]) == relaxation(*task, grounded@[i].0 as int, grounded@[i].1.deep_view()) by {
                if i < g {
                    assert(model@[i] == before[i]);
                }
            }
        }
        g = g + 1;
    }
    model
}

// ----------------------------------------------------------------------------------------------
// Grounding size
// ----------------------------------------------------------------------------------------------

/// The relaxed model is built only when the task has at most this many well-typed action
/// instances.
pub const MAX_HMAX_GROUND_ACTIONS: usize = 10_000;

/// The number of objects that may stand for a parameter of type `ty`.
pub open spec fn domain_count(objs: Seq<Binding>, ty: Seq<char>) -> nat
    decreases objs.len(),
{
    if objs.len() == 0 {
        0
    } else {
        domain_count(objs.drop_last(), ty) + if of_type(objs.last(), ty) { 1nat } else { 0nat }
    }
}

/// The product of the parameter domains of `schema` from parameter `i` on, times `acc`,
/// computed in `usize`: none if a partial product overflows.
pub open spec fn checked_product(task: Task, schema: Action, i: int, acc: nat) -> Option<nat>
    decreases schema.parameters@.len() - i,
{
    if i < 0 || i >= schema.parameters@.len() {
        Some(acc)
    } else {
        let next = acc * domain_count(task.objects@, schema.parameters@[i].ty@);
        if next > usize::MAX { None } else { checked_product(task, schema, i + 1, next) }
    }
}

/// The number of well-typed instances of the schemas from `k` on, added to `total` in `usize`:
/// none if a count overflows or a running total exceeds `limit`.
pub open spec fn checked_total(task: Task, limit: nat, k: int, total: nat) -> Option<nat>
    decreases task.actions@.len() - k,
{
    if k < 0 || k >= task.actions@.len() {
        Some(total)
    } else {
        match checked_product(task, task.actions@[k], 0, 1) {
            Some(c) => if total + c > usize::MAX || total + c > limit {
                None
            } else {
                checked_total(task, limit, k + 1, total + c)
            },
            None => None,
        }
    }
}

/// The number of well-typed action instances, if it stays within `limit` and every count
/// fits in `usize`.
pub fn typed_ground_action_count(task: &Task, limit: usize) -> (r: Option<usize>)
    ensures
        usize_opt(r) == checked_total(*task, limit as nat, 0, 0),
{
    let mut total: usize = 0;
    let mut k: usize = 0;
    while k < task.actions.len()
        invariant
            k <= task.actions@.len(),
            checked_total(*task, limit as nat, 0, 0) == checked_total(*task, limit as nat, k as int, total as nat),
        decreases task.actions.len() - k,
    {
        let schema = &task.actions[k];
        let mut count: usize = 1;
        let mut i: usize = 0;
        while i < schema.parameters.len()
            invariant
                i <= schema.parameters@.len(),
                k < task.actions@.len(),
                *schema == task.actions@[k as int],
                checked_total(*task, limit as nat, 0, 0) == checked_total(*task, limit as nat, k as int, total as nat),
                checked_product(*task, *schema, 0, 1) == checked_product(*task, *schema, i as int, count as nat),
            decreases schema.parameters.len() - i,
        {
            let ty = &schema.parameters[i].ty;
            let any = crate::text::is_object_type(ty);
            let mut domain: usize = 0;
            let mut j: usize = 0;
            while j < task.objects.len()
                invariant
                    j <= task.objects@.len(),
                    any == (ty@ == "object"@),
                    domain == domain_count(task.objects@.subrange(0, j as int), ty@),
                    domain <= j,
                decreases task.objects.len() - j,
            {
                proof {
                    assert(task.objects@.subrange(0, j + 1).drop_last() =~= task.objects@.subrange(0, j as int));
                }
                if any || task.objects[j].ty == *ty {
                    domain = domain + 1;
                }
                j = j + 1;
            }
            proof {
                assert(task.objects@.subrange(0, task.objects@.len() as int) =~= task.objects@);
            }
            match count.checked_mul(domain) {
                Some(c) => {
                    count = c;
                },
                None => {
                    return None;
                },
            }
            i = i + 1;
        }
        match total.checked_add(count) {
            Some(t) => {
                total = t;
            },
            None => {
                return None;
            },
        }
        if total > limit {
            return None;
        }
        k = k + 1;
    }
    Some(total)
}

// ----------------------------------------------------------------------------------------------
// The estimate
// ----------------------------------------------------------------------------------------------

/// What A* search uses to rank and prune states: the goal atoms of a positive ground goal,
/// the relaxed model when the grounding is small, and the most goal atoms one action adds.
pub struct Estimator {
    pub goals: Option<State>,
    pub relaxed: Option<Vec<RelaxedAction>>,
    pub max_goal_adds: Option<usize>,
}

pub open spec fn goals_view(e: Estimator) -> Option<Set<AtomV>> {
    match e.goals {
        Some(g) => Some(g@),
        None => None,
    }
}

pub open spec fn models_view(e: Estimator) -> Option<Seq<(Set<AtomV>, Set<AtomV>)>> {
    match e.relaxed {
        Some(m) => Some(model_view(m@)),
        None => None,
    }
}

/// Whether `e` is the estimator of `task`.
pub open spec fn estimator_of(task: Task, e: Estimator) -> bool {
    &&& goals_view(e) == facts_of(formula_v(task.goal))
    &&& (e.relaxed is Some <==> (e.goals is Some && checked_total(task, MAX_HMAX_GROUND_ACTIONS as nat, 0, 0) is Some))
    &&& (models_view(e) matches Some(m) ==> model_of(task, m))
    &&& usize_opt(e.max_goal_adds) == match goals_view(e) {
        Some(g) => Some(goal_add_bound(task, g, task.actions@.len() as int)),
        None => None,
    }
}

/// The `h_max` part of the estimate: zero without a relaxed model or for a relaxed dead end.
pub open spec fn hmax_part(model: Option<Seq<(Set<AtomV>, Set<AtomV>)>>, goals: Set<AtomV>, s: Set<AtomV>) -> u32 {
    match model {
        Some(m) => match saturate_opt(hmax(m, goals, s)) {
            Some(h) => h,
            None => 0,
        },
        None => 0,
    }
}

/// The goal-cover part of the estimate: zero where the bound is undefined.
pub open spec fn cover_part(goals: Set<AtomV>, s: Set<AtomV>, max_goal_adds: Option<nat>) -> u32 {
    match cover_u32(goals, s, max_goal_adds) {
        Some(c) => c,
        None => 0,
    }
}

/// The estimate of the steps from `s` to a goal state: the larger of the two parts for a
/// nonempty positive ground goal, and zero otherwise.
pub open spec fn estimate(
    goals: Option<Set<AtomV>>,
    model: Option<Seq<(Set<AtomV>, Set<AtomV>)>>,
    max_goal_adds: Option<nat>,
    s: Set<AtomV>,
) -> u32 {
    match goals {
        None => 0,
        Some(g) => if g.len() == 0 {
            0
        } else {
            let a = hmax_part(model, g, s);
            let b = cover_part(g, s, max_goal_adds);
            if a > b { a } else { b }
        },
    }
}

/// Whether the estimate proves that no goal state can be reached from `s`: goals are missing
/// and no action adds a goal atom, or some goal is relaxed-unreachable.
pub open spec fn dead_end(
    goals: Option<Set<AtomV>>,
    model: Option<Seq<(Set<AtomV>, Set<AtomV>)>>,
    max_goal_adds: Option<nat>,
    s: Set<AtomV>,
) -> bool {
    goals matches Some(g) && (cover(g, s, max_goal_adds) is None || (model matches Some(m) && hmax(m, g, s) is None))
}

impl Estimator {
    /// The estimator of a valid task.
    pub fn new(task: &Task) -> (e: Estimator)
        requires
            task_valid(*task),
        ensures
            estimator_of(*task, e),
    {
        let goals = positive_ground_goal(&task.goal);
        match goals {
            None => Estimator { goals: None, relaxed: None, max_goal_adds: None },
            Some(g) => {
                let relaxed = match typed_ground_action_count(task, MAX_HMAX_GROUND_ACTIONS) {
                    Some(_) => {
                        let grounded = ground_actions(task);
                        let model = build_relaxed_model(task, &grounded);
                        proof {
                            let gv = grounded@.map_values(|e: (usize, Vec<String>)| (e.0 as int, e.1.deep_view()));
                            let m = model_view(model@);
                            assert forall|i: int| 0 <= i < gv.len() implies 0 <= (#[trigger] gv[i]).0 < task.actions@.len()
                                && args_ok(*task, task.actions@[gv[i].0], gv[i].1) && relaxes(*task, gv[i].0, gv[i].1, m[i]) by {
                                assert(m[i] == relaxed_view(model@[i]));
                                reveal(relaxes);
                            }
                            assert forall|k: int, args: Seq<Seq<char>>| 0 <= k < task.actions@.len() && #[trigger] args_ok(*task, task.actions@[k], args)
                                implies exists|i: int| 0 <= i < gv.len() && gv[i].0 == k && gv[i].1 == args by {
                                let i = choose|i: int| 0 <= i < grounded@.len() && grounded@[i].0 == k && grounded@[i].1.deep_view() == args;
                                assert(gv[i].0 == k && gv[i].1 == args);
                            }
                            lemma_model_of(*task, gv, m);
                        }
                        Some(model)
                    },
                    None => None,
                };
                let max_goal_adds = goal_add_upper_bound(task, &g);
                let e = Estimator { goals: Some(g), relaxed, max_goal_adds: Some(max_goal_adds) };
                proof {
                    assert(goals_view(e) == facts_of(formula_v(task.goal)));
                    assert(e.relaxed is Some <==> (e.goals is Some && checked_total(*task, MAX_HMAX_GROUND_ACTIONS as nat, 0, 0) is Some));
                    assert(models_view(e) matches Some(m) ==> model_of(*task, m));
                }
                e
            },
        }
    }

    /// The estimate of the steps from `state` to a goal state.
    pub fn heuristic(&self, state: &State) -> (h: u32)
        ensures
            h == estimate(goals_view(*self), models_view(*self), usize_opt(self.max_goal_adds), state@),
    {
        match &self.goals {
            None => 0,
            Some(g) => {
                let cover = match goal_cover(g, state, self.max_goal_adds) {
                    Some(c) => c,
                    None => 0,
                };
                let h_max = match &self.relaxed {
                    Some(model) => match relaxed_hmax(model, g, state) {
                        Some(h) => h,
                        None => 0,
                    },
                    None => 0,
                };
                if g.len() == 0 {
                    0
                } else if h_max > cover {
                    h_max
                } else {
                    cover
                }
            },
        }
    }

    /// Whether the estimate proves that no goal state can be reached from `state`, so that
    /// search need not expand it.
    pub fn is_dead_end(&self, state: &State) -> (r: bool)
        ensures
            r == dead_end(goals_view(*self), models_view(*self), usize_opt(self.max_goal_adds), state@),
    {
        match &self.goals {
            None => false,
            Some(g) => {
                if goal_cover(g, state, self.max_goal_adds).is_none() {
                    return true;
                }
                match &self.relaxed {
                    Some(model) => relaxed_hmax(model, g, state).is_none(),
                    None => false,
                }
            },
        }
    }
}

// ----------------------------------------------------------------------------------------------
// Laws of the estimate
// ----------------------------------------------------------------------------------------------

/// The object a term with names as character sequences denotes under `env`.
pub open spec fn term_v_value(t: TermV, env: Env) -> Seq<char> {
    match t {
        TermV::Obj(n) => n,
        TermV::Var(n) => match lookup(env, n) {
            Some(v) => v,
            None => n,
        },
    }
}

/// The ground atom an atom with names as character sequences denotes under `env`.
pub open spec fn ground_v(v: (Seq<char>, Seq<TermV>), env: Env) -> AtomV {
    (v.0, v.1.map_values(|t: TermV| term_v_value(t, env)))
}

proof fn lemma_ground_v(a: Atom, env: Env)
    ensures
        ground(a, env) == ground_v(atom_v(a), env),
{
    assert(a.terms@.map_values(|t: Term| term_value(t, env)) =~= terms_v(a.terms@).map_values(
        |t: TermV| term_v_value(t, env),
    ));
}

/// An action instance makes at most as many goal atoms true as its schema has distinct
/// goal-like add effects.
proof fn lemma_goal_added(schema: Action, args: Seq<Seq<char>>, goals: Set<AtomV>)
    requires
        goals.finite(),
    ensures
        added(schema, args).intersect(goals).finite(),
        added(schema, args).intersect(goals).len() <= goal_adds(schema, goals).len(),
{
    let env = action_env(schema, args);
    let f = |v: (Seq<char>, Seq<TermV>)| ground_v(v, env);
    let ga = goal_adds(schema, goals);
    let all = schema.add@.map_values(|a: Atom| atom_v(a)).to_set();
    assert(ga.subset_of(all)) by {
        assert forall|v: (Seq<char>, Seq<TermV>)| ga.contains(v) implies all.contains(v) by {
            let j = choose|j: int| 0 <= j < schema.add@.len() && atom_v(#[trigger] schema.add@[j]) == v;
            assert(schema.add@.map_values(|a: Atom| atom_v(a))[j] == v);
        }
    }
    vstd::seq_lib::seq_to_set_is_finite(schema.add@.map_values(|a: Atom| atom_v(a)));
    vstd::set_lib::lemma_len_subset(ga, all);
    ga.lemma_map_finite(f);
    let both = added(schema, args).intersect(goals);
    assert(both.subset_of(ga.map(f))) by {
        assert forall|x: AtomV| both.contains(x) implies ga.map(f).contains(x) by {
            let j = choose|j: int| 0 <= j < schema.add@.len() && ground(#[trigger] schema.add@[j], env) == x;
            let v = atom_v(schema.add@[j]);
            lemma_ground_v(schema.add@[j], env);
            assert(goal_like(v, goals));
            assert(ga.contains(v));
            assert(f(v) == x);
        }
    }
    vstd::set_lib::lemma_map_size_bound(ga, ga.map(f), f);
    vstd::set_lib::lemma_len_subset(both, ga.map(f));
}

/// Every schema's goal-like add effects count toward the bound over the schemas after it.
proof fn lemma_goal_add_bound(task: Task, goals: Set<AtomV>, k: int, n: int)
    requires
        0 <= k < n,
    ensures
        goal_adds(task.actions@[k], goals).len() <= goal_add_bound(task, goals, n),
    decreases n,
{
    if k < n - 1 {
        lemma_goal_add_bound(task, goals, k, n - 1);
    }
}

/// The schema named by an applicable step is one of the task's schemas.
proof fn lemma_step_schema(task: Task, st: Set<AtomV>, g: GroundAction)
    requires
        step_ok(task, st, g),
    ensures
        0 <= schema_of(task, g.name@) < task.actions@.len(),
{
}

/// One step makes at most the bound's number of missing goal atoms true.
proof fn lemma_step_missing(task: Task, u: Set<AtomV>, g: GroundAction, goals: Set<AtomV>)
    requires
        step_ok(task, u, g),
        goals.finite(),
    ensures
        missing(goals, u).len() <= missing(goals, step_result(task, u, g)).len() + goal_add_bound(
            task,
            goals,
            task.actions@.len() as int,
        ),
{
    lemma_step_schema(task, u, g);
    let k = schema_of(task, g.name@);
    let schema = task.actions@[k];
    let args = g.arguments.deep_view();
    let after = step_result(task, u, g);
    let gained = added(schema, args).intersect(goals);
    lemma_goal_added(schema, args, goals);
    lemma_goal_add_bound(task, goals, k, task.actions@.len() as int);
    assert(missing(goals, u).subset_of(missing(goals, after).union(gained)));
    vstd::set_lib::lemma_set_subset_finite(goals, missing(goals, after));
    vstd::set_lib::lemma_len_union(missing(goals, after), gained);
    vstd::set_lib::lemma_set_union_finite_iff(missing(goals, after), gained);
    vstd::set_lib::lemma_len_subset(missing(goals, u), missing(goals, after).union(gained));
}

/// Along a run of `n` steps, at most `n` times the bound of missing goal atoms become true.
proof fn lemma_run_missing(task: Task, s: Set<AtomV>, steps: Seq<GroundAction>, goals: Set<AtomV>)
    requires
        run(task, s, steps) is Some,
        goals.finite(),
    ensures
        missing(goals, s).len() <= missing(goals, run(task, s, steps)->0).len() + steps.len()
            * goal_add_bound(task, goals, task.actions@.len() as int),
    decreases steps.len(),
{
    if steps.len() > 0 {
        let u = run(task, s, steps.drop_last())->0;
        lemma_run_missing(task, s, steps.drop_last(), goals);
        lemma_step_missing(task, u, steps.last(), goals);
        let b = goal_add_bound(task, goals, task.actions@.len() as int);
        let n = steps.len();
        assert((n - 1) * b + b == n * b) by (nonlinear_arith);
    }
}

/// An applicable step stays within one relaxed step of the model of the task.
proof fn lemma_step_relaxed(task: Task, m: Seq<(Set<AtomV>, Set<AtomV>)>, u: Set<AtomV>, g: GroundAction)
    requires
        model_of(task, m),
        step_ok(task, u, g),
    ensures
        step_result(task, u, g).subset_of(relaxed_step(m, u)),
{
    lemma_step_schema(task, u, g);
    let k = schema_of(task, g.name@);
    let schema = task.actions@[k];
    let args = g.arguments.deep_view();
    let env = action_env(schema, args);
    assert(args_ok(task, task.actions@[k], args));
    assert(holds_relaxation(task, m, k, args));
    let i = choose|i: int| 0 <= i < m.len() && #[trigger] relaxes(task, k, args, m[i]);
    reveal(relaxes);
    assert(m[i] == relaxation(task, k, args));
    assert(m[i].0.subset_of(u)) by {
        assert forall|x: AtomV| m[i].0.contains(x) implies u.contains(x) by {
            let a = choose|a: Atom| #[trigger] conj_atom(schema.precondition, a) && ground(a, env) == x;
            crate::planner::lemma_conj_atom_holds(task.objects@, u, schema.precondition, a, env);
        }
    }
    assert forall|x: AtomV| step_result(task, u, g).contains(x) implies relaxed_step(m, u).contains(x) by {
        if !u.contains(x) {
            assert(m[i].1.contains(x));
        }
    }
}

/// A relaxed step is monotone in the state.
proof fn lemma_relaxed_step_monotone(m: Seq<(Set<AtomV>, Set<AtomV>)>, s: Set<AtomV>, t: Set<AtomV>)
    requires
        s.subset_of(t),
    ensures
        relaxed_step(m, s).subset_of(relaxed_step(m, t)),
{
    assert forall|x: AtomV| relaxed_step(m, s).contains(x) implies relaxed_step(m, t).contains(x) by {
        if !s.contains(x) {
            let i = choose|i: int| 0 <= i < m.len() && m[i].0.subset_of(s) && #[trigger] m[i].1.contains(x);
            assert(m[i].0.subset_of(t));
        }
    }
}

/// Layers are monotone in the state they start from.
proof fn lemma_layer_monotone(m: Seq<(Set<AtomV>, Set<AtomV>)>, s: Set<AtomV>, t: Set<AtomV>, j: nat)
    requires
        s.subset_of(t),
    ensures
        layer(m, s, j).subset_of(layer(m, t, j)),
    decreases j,
{
    if j > 0 {
        lemma_layer_monotone(m, s, t, (j - 1) as nat);
        lemma_relaxed_step_monotone(m, layer(m, s, (j - 1) as nat), layer(m, t, (j - 1) as nat));
    }
}

/// The layers from the first layer of `s` are the later layers of `s`.
proof fn lemma_layer_shift(m: Seq<(Set<AtomV>, Set<AtomV>)>, s: Set<AtomV>, j: nat)
    ensures
        layer(m, layer(m, s, 1), j) == layer(m, s, j + 1),
    decreases j,
{
    if j > 0 {
        lemma_layer_shift(m, s, (j - 1) as nat);
    }
}

/// The state a run of `n` steps reaches lies within `n` relaxed layers.
proof fn lemma_run_relaxed(task: Task, m: Seq<(Set<AtomV>, Set<AtomV>)>, s: Set<AtomV>, steps: Seq<GroundAction>)
    requires
        model_of(task, m),
        run(task, s, steps) is Some,
    ensures
        run(task, s, steps)->0.subset_of(layer(m, s, steps.len())),
    decreases steps.len(),
{
    if steps.len() > 0 {
        let u = run(task, s, steps.drop_last())->0;
        lemma_run_relaxed(task, m, s, steps.drop_last());
        lemma_step_relaxed(task, m, u, steps.last());
        lemma_relaxed_step_monotone(m, u, layer(m, s, (steps.len() - 1) as nat));
    }
}

/// `h_max` never exceeds a count of relaxed steps that reaches the goals.
proof fn lemma_hmax_at_most(m: Seq<(Set<AtomV>, Set<AtomV>)>, goals: Set<AtomV>, s: Set<AtomV>, k: nat)
    requires
        reaches(m, goals, s, k),
    ensures
        hmax(m, goals, s) matches Some(h) && h <= k,
{
    lemma_least_reaching(m, goals, s, k);
    let h = choose|h: nat| h <= k && reaches(m, goals, s, h) && forall|j: nat| j < h ==> !reaches(m, goals, s, j);
    lemma_hmax_is(m, goals, s, h);
}

/// A rounded-up quotient stays below `n` when the dividend is at most `n` times the divisor.
proof fn lemma_ceil_div_at_most(a: nat, b: nat, n: nat)
    requires
        b >= 1,
        a <= n * b,
    ensures
        ceil_div(a, b) <= n,
{
    assert(a == b * (a / b) + a % b) by (nonlinear_arith)
        requires
            b >= 1,
    ;
    assert(a / b <= n) by (nonlinear_arith)
        requires
            b >= 1,
            a <= n * b,
            a == b * (a / b) + a % b,
            a % b >= 0,
    ;
    if a % b != 0 {
        assert(a / b < n) by (nonlinear_arith)
            requires
                b >= 1,
                a <= n * b,
                a == b * (a / b) + a % b,
                a % b > 0,
        ;
    }
}

/// What a run from `s` that ends in a goal state shows of both parts of the estimate at `s`.
proof fn lemma_goal_run(task: Task, e: Estimator, s: Set<AtomV>, steps: Seq<GroundAction>)
    requires
        estimator_of(task, e),
        run(task, s, steps) matches Some(t) && holds(task.objects@, t, task.goal, Seq::empty()),
    ensures
        goals_view(e) matches Some(g) ==> {
            &&& cover(g, s, usize_opt(e.max_goal_adds)) matches Some(c) && c <= steps.len()
            &&& models_view(e) matches Some(m) ==> hmax(m, g, s) matches Some(h) && h <= steps.len()
        },
{
    if let Some(g) = goals_view(e) {
        let t = run(task, s, steps)->0;
        lemma_goal_holds(task.objects@, t, task.goal, Seq::empty());
        assert(g.subset_of(t));
        e.goals->0.lemma_finite();
        let b = goal_add_bound(task, g, task.actions@.len() as int);
        lemma_run_missing(task, s, steps, g);
        assert(missing(g, t) =~= Set::<AtomV>::empty());
        let n = steps.len();
        let a = missing(g, s).len();
        if a > 0 {
            if b == 0 {
                assert(n * b == 0) by (nonlinear_arith)
                    requires
                        b == 0,
                ;
            } else {
                lemma_ceil_div_at_most(a, b, n);
            }
        }
        if let Some(m) = models_view(e) {
            lemma_run_relaxed(task, m, s, steps);
            lemma_hmax_at_most(m, g, s, n);
        }
    }
}

/// The estimate is admissible: no sequence of steps from `s` to a goal state is shorter than
/// the estimate of `s`.
pub proof fn law_estimate_admissible(task: Task, e: Estimator, s: Set<AtomV>, steps: Seq<GroundAction>)
    requires
        estimator_of(task, e),
        run(task, s, steps) matches Some(t) && holds(task.objects@, t, task.goal, Seq::empty()),
    ensures
        estimate(goals_view(e), models_view(e), usize_opt(e.max_goal_adds), s) <= steps.len(),
{
    lemma_goal_run(task, e, s, steps);
}

/// The estimate is zero in a goal state.
pub proof fn law_estimate_zero_at_goal(task: Task, e: Estimator, t: Set<AtomV>)
    requires
        estimator_of(task, e),
        holds(task.objects@, t, task.goal, Seq::empty()),
    ensures
        estimate(goals_view(e), models_view(e), usize_opt(e.max_goal_adds), t) == 0,
{
    law_estimate_admissible(task, e, t, Seq::empty());
}

/// Dead-end pruning is sound: from a state the estimate marks as a dead end, no sequence of
/// steps reaches a goal state.
pub proof fn law_dead_end_sound(task: Task, e: Estimator, s: Set<AtomV>, steps: Seq<GroundAction>)
    requires
        estimator_of(task, e),
        dead_end(goals_view(e), models_view(e), usize_opt(e.max_goal_adds), s),
    ensures
        !(run(task, s, steps) matches Some(t) && holds(task.objects@, t, task.goal, Seq::empty())),
{
    if run(task, s, steps) matches Some(t) && holds(task.objects@, t, task.goal, Seq::empty()) {
        lemma_goal_run(task, e, s, steps);
    }
}

/// A defined `h_max` value reaches the goals.
proof fn lemma_hmax_reaches(m: Seq<(Set<AtomV>, Set<AtomV>)>, goals: Set<AtomV>, s: Set<AtomV>)
    requires
        hmax(m, goals, s) is Some,
    ensures
        reaches(m, goals, s, hmax(m, goals, s)->0),
{
    let k = choose|k: nat| reaches(m, goals, s, k);
    lemma_least_reaching(m, goals, s, k);
}

/// A dividend is at most its rounded-up quotient times the divisor.
proof fn lemma_ceil_div_covers(a: nat, b: nat)
    requires
        b >= 1,
    ensures
        a <= ceil_div(a, b) * b,
{
    assert(a == b * (a / b) + a % b && a % b < b) by (nonlinear_arith)
        requires
            b >= 1,
    ;
    if a % b == 0 {
        assert(a == (a / b) * b) by (nonlinear_arith)
            requires
                a == b * (a / b) + a % b,
                a % b == 0,
        ;
    } else {
        let q = a / b;
        assert((q + 1) * b == b * q + b) by (nonlinear_arith);
    }
}

/// The goal-cover part after a step is at least the part before it, less one.
proof fn lemma_cover_consistent(task: Task, e: Estimator, s: Set<AtomV>, g: GroundAction)
    requires
        estimator_of(task, e),
        step_ok(task, s, g),
        goals_view(e) matches Some(gs) && cover(gs, step_result(task, s, g), usize_opt(e.max_goal_adds)) is Some
            && gs.len() <= u32::MAX,
    ensures
        goals_view(e) matches Some(gs) && cover_part(gs, s, usize_opt(e.max_goal_adds)) <= cover_part(
            gs,
            step_result(task, s, g),
            usize_opt(e.max_goal_adds),
        ) + 1,
{
    let s2 = step_result(task, s, g);
    let gs = goals_view(e)->0;
    e.goals->0.lemma_finite();
    let b = goal_add_bound(task, gs, task.actions@.len() as int);
    lemma_step_missing(task, s, g, gs);
    let a = missing(gs, s).len();
    let a2 = missing(gs, s2).len();
    vstd::set_lib::lemma_len_subset(missing(gs, s), gs);
    vstd::set_lib::lemma_len_subset(missing(gs, s2), gs);
    let c2 = cover(gs, s2, Some(b))->0;
    if a2 > 0 {
        assert(a2 <= a2 * b) by (nonlinear_arith)
            requires
                b >= 1,
        ;
        lemma_ceil_div_at_most(a2, b, a2);
    }
    if a > 0 {
        if b == 0 {
            assert(a2 == 0);
        } else {
            lemma_ceil_div_covers(a2, b);
            assert(a <= (c2 + 1) * b) by (nonlinear_arith)
                requires
                    a <= a2 + b,
                    a2 <= c2 * b,
            ;
            lemma_ceil_div_at_most(a, b, c2 + 1);
            assert(a <= a * b) by (nonlinear_arith)
                requires
                    b >= 1,
            ;
            lemma_ceil_div_at_most(a, b, a);
        }
    }
}

/// The `h_max` part after a step is at least the part before it, less one.
proof fn lemma_hmax_consistent(task: Task, m: Seq<(Set<AtomV>, Set<AtomV>)>, gs: Set<AtomV>, s: Set<AtomV>, g: GroundAction)
    requires
        model_of(task, m),
        step_ok(task, s, g),
        hmax(m, gs, step_result(task, s, g)) is Some,
    ensures
        hmax_part(Some(m), gs, s) <= hmax_part(Some(m), gs, step_result(task, s, g)) + 1,
{
    let s2 = step_result(task, s, g);
    lemma_hmax_reaches(m, gs, s2);
    let h2 = hmax(m, gs, s2)->0;
    assert(s2.subset_of(layer(m, s, 1))) by {
        lemma_step_relaxed(task, m, s, g);
        assert(layer(m, s, 1) == relaxed_step(m, layer(m, s, 0)));
    }
    assert(reaches(m, gs, s, h2 + 1)) by {
        lemma_layer_monotone(m, s2, layer(m, s, 1), h2);
        lemma_layer_shift(m, s, h2);
    }
    lemma_hmax_at_most(m, gs, s, h2 + 1);
    let h = hmax(m, gs, s)->0;
    assert(saturate(h) <= saturate(h2) + 1);
}

/// The estimate is consistent: an applicable step lowers it by at most one, unless the step
/// leads into a dead end. Goals of more than `u32::MAX` atoms are left out, since the
/// goal-cover bound is reported truncated to a `u32`.
pub proof fn law_estimate_consistent(task: Task, e: Estimator, s: Set<AtomV>, g: GroundAction)
    requires
        estimator_of(task, e),
        step_ok(task, s, g),
        !dead_end(goals_view(e), models_view(e), usize_opt(e.max_goal_adds), step_result(task, s, g)),
        goals_view(e) matches Some(goals) ==> goals.len() <= u32::MAX,
    ensures
        estimate(goals_view(e), models_view(e), usize_opt(e.max_goal_adds), s) <= estimate(
            goals_view(e),
            models_view(e),
            usize_opt(e.max_goal_adds),
            step_result(task, s, g),
        ) + 1,
{
    if let Some(gs) = goals_view(e) {
        lemma_cover_consistent(task, e, s, g);
        if let Some(m) = models_view(e) {
            lemma_hmax_consistent(task, m, gs, s, g);
        }
    }
}

} // verus!
