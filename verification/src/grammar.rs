//! The FOLPlan grammar over token sequences, and the abstract values of parsed models.
use vstd::prelude::*;

use crate::dsl::{Lexeme, Symbol, MAX_NESTING};
use crate::model::{Action, Atom, AtomV, Binding, Formula, Predicate, Task, Term};

verus! {

// ----------------------------------------------------------------------------------------------
// Abstract values
// ----------------------------------------------------------------------------------------------

/// A term: a variable or an object, by name.
pub enum TermV {
    Var(Seq<char>),
    Obj(Seq<char>),
}

/// A formula with names as character sequences.
pub enum FormulaV {
    Atom(Seq<char>, Seq<TermV>),
    Equal(TermV, TermV),
    Not(Box<FormulaV>),
    And(Seq<FormulaV>),
    Or(Seq<FormulaV>),
    Implies(Box<FormulaV>, Box<FormulaV>),
    Exists(Seq<(Seq<char>, Seq<char>)>, Box<FormulaV>),
    Forall(Seq<(Seq<char>, Seq<char>)>, Box<FormulaV>),
}

/// An action schema with names as character sequences.
pub struct ActionV {
    pub name: Seq<char>,
    pub parameters: Seq<(Seq<char>, Seq<char>)>,
    pub precondition: FormulaV,
    pub add: Seq<(Seq<char>, Seq<TermV>)>,
    pub delete: Seq<(Seq<char>, Seq<TermV>)>,
}

/// A task with names as character sequences.
pub struct TaskV {
    pub name: Seq<char>,
    pub types: Seq<Seq<char>>,
    pub objects: Seq<(Seq<char>, Seq<char>)>,
    pub predicates: Seq<(Seq<char>, Seq<Seq<char>>)>,
    pub actions: Seq<ActionV>,
    pub initial: Set<AtomV>,
    pub goal: FormulaV,
}

pub open spec fn term_v(t: Term) -> TermV {
    match t {
        Term::Variable(n) => TermV::Var(n@),
        Term::Constant(n) => TermV::Obj(n@),
    }
}

pub open spec fn terms_v(ts: Seq<Term>) -> Seq<TermV> {
    ts.map_values(|t: Term| term_v(t))
}

pub open spec fn atom_v(a: Atom) -> (Seq<char>, Seq<TermV>) {
    (a.predicate@, terms_v(a.terms@))
}

pub open spec fn binding_v(b: Binding) -> (Seq<char>, Seq<char>) {
    (b.name@, b.ty@)
}

pub open spec fn bindings_v(bs: Seq<Binding>) -> Seq<(Seq<char>, Seq<char>)> {
    bs.map_values(|b: Binding| binding_v(b))
}

pub open spec fn formula_v(f: Formula) -> FormulaV
    decreases f, 0int,
{
    match f {
        Formula::Atom(a) => FormulaV::Atom(atom_v(a).0, atom_v(a).1),
        Formula::Equal(l, r) => FormulaV::Equal(term_v(l), term_v(r)),
        Formula::Not(g) => FormulaV::Not(Box::new(formula_v(*g))),
        Formula::And(ps) => FormulaV::And(formulas_v(ps@)),
        Formula::Or(ps) => FormulaV::Or(formulas_v(ps@)),
        Formula::Implies(l, r) => FormulaV::Implies(Box::new(formula_v(*l)), Box::new(formula_v(*r))),
        Formula::Exists(bs, g) => FormulaV::Exists(bindings_v(bs@), Box::new(formula_v(*g))),
        Formula::Forall(bs, g) => FormulaV::Forall(bindings_v(bs@), Box::new(formula_v(*g))),
    }
}

pub open spec fn formulas_v(ps: Seq<Formula>) -> Seq<FormulaV>
    decreases ps, 0int,
{
    if ps.len() == 0 {
        Seq::empty()
    } else {
        seq![formula_v(ps[0])] + formulas_v(ps.drop_first())
    }
}

/// `formulas_v` maps each formula to its value.
pub proof fn lemma_formulas_v(ps: Seq<Formula>)
    ensures
        formulas_v(ps).len() == ps.len(),
        forall|i: int| 0 <= i < ps.len() ==> #[trigger] formulas_v(ps)[i] == formula_v(ps[i]),
    decreases ps.len(),
{
    if ps.len() > 0 {
        lemma_formulas_v(ps.drop_first());
        assert forall|i: int| 0 <= i < ps.len() implies #[trigger] formulas_v(ps)[i] == formula_v(ps[i]) by {
            if i > 0 {
                assert(formulas_v(ps)[i] == formulas_v(ps.drop_first())[i - 1]);
                assert(ps.drop_first()[i - 1] == ps[i]);
            }
        }
    }
}

pub open spec fn predicate_v(p: Predicate) -> (Seq<char>, Seq<Seq<char>>) {
    (p.name@, p.parameters@.map_values(|s: String| s@))
}

pub open spec fn action_v(a: Action) -> ActionV {
    ActionV {
        name: a.name@,
        parameters: bindings_v(a.parameters@),
        precondition: formula_v(a.precondition),
        add: a.add@.map_values(|x: Atom| atom_v(x)),
        delete: a.delete@.map_values(|x: Atom| atom_v(x)),
    }
}

pub open spec fn task_v(t: Task) -> TaskV {
    TaskV {
        name: t.name@,
        types: t.types@.map_values(|s: String| s@),
        objects: bindings_v(t.objects@),
        predicates: t.predicates@.map_values(|p: Predicate| predicate_v(p)),
        actions: t.actions@.map_values(|a: Action| action_v(a)),
        initial: t.initial@,
        goal: formula_v(t.goal),
    }
}

// ----------------------------------------------------------------------------------------------
// Tokens
// ----------------------------------------------------------------------------------------------

pub type Toks = Seq<(Lexeme, nat, nat)>;

/// The lexeme at `p`, or the end past the sequence.
pub open spec fn tok(ls: Toks, p: int) -> Lexeme {
    if 0 <= p < ls.len() {
        ls[p].0
    } else {
        Lexeme::Stop
    }
}

pub open spec fn sym(ls: Toks, p: int, s: Symbol) -> bool {
    tok(ls, p) == Lexeme::Mark(s)
}

pub open spec fn word_is(ls: Toks, p: int, w: Seq<char>) -> bool {
    tok(ls, p) == Lexeme::Word(w)
}

/// Whether a word is one of the reserved constants or quantifiers.
pub open spec fn reserved_word(n: Seq<char>) -> bool {
    n == "true"@ || n == "false"@ || n == "forall"@ || n == "exists"@
}

/// The name at `p`: a word that is not reserved.
pub open spec fn name_at(ls: Toks, p: int) -> Option<Seq<char>> {
    match tok(ls, p) {
        Lexeme::Word(n) => if reserved_word(n) { None } else { Some(n) },
        _ => None,
    }
}

// ----------------------------------------------------------------------------------------------
// Formulas
// ----------------------------------------------------------------------------------------------

/// A name in scope is a variable; any other name is an object.
pub open spec fn term_for(n: Seq<char>, scope: Seq<Seq<char>>) -> TermV {
    if scope.contains(n) {
        TermV::Var(n)
    } else {
        TermV::Obj(n)
    }
}

/// `name, name, ...` as terms.
pub open spec fn g_terms(ls: Toks, p: int, scope: Seq<Seq<char>>) -> Option<(Seq<TermV>, int)>
    decreases ls.len() - p,
{
    match name_at(ls, p) {
        Some(n) => if sym(ls, p + 1, Symbol::Comma) && p + 2 < ls.len() {
            match g_terms(ls, p + 2, scope) {
                Some((rest, q)) => Some((seq![term_for(n, scope)] + rest, q)),
                None => None,
            }
        } else {
            Some((seq![term_for(n, scope)], p + 1))
        },
        None => None,
    }
}

/// `prefix` followed by the terms of `r`, if `r` succeeded.
pub open spec fn terms_after(prefix: Seq<TermV>, r: Option<(Seq<TermV>, int)>) -> Option<(Seq<TermV>, int)> {
    match r {
        Some((rest, q)) => Some((prefix + rest, q)),
        None => None,
    }
}

/// `name(terms)`, `name = name`, or `name != name`.
pub open spec fn g_application(ls: Toks, p: int, scope: Seq<Seq<char>>) -> Option<(FormulaV, int)> {
    match name_at(ls, p) {
        Some(first) => if sym(ls, p + 1, Symbol::Equal) || sym(ls, p + 1, Symbol::NotEqual) {
            match name_at(ls, p + 2) {
                Some(second) => {
                    let eq = FormulaV::Equal(term_for(first, scope), term_for(second, scope));
                    Some((if sym(ls, p + 1, Symbol::NotEqual) { FormulaV::Not(Box::new(eq)) } else { eq }, p + 3))
                },
                None => None,
            }
        } else if sym(ls, p + 1, Symbol::LParen) {
            if sym(ls, p + 2, Symbol::RParen) {
                Some((FormulaV::Atom(first, Seq::empty()), p + 3))
            } else {
                match g_terms(ls, p + 2, scope) {
                    Some((ts, q)) => if sym(ls, q, Symbol::RParen) {
                        Some((FormulaV::Atom(first, ts), q + 1))
                    } else {
                        None
                    },
                    None => None,
                }
            }
        } else {
            None
        },
        None => None,
    }
}

/// `name: type, ...` as bindings.
pub open spec fn g_bindings(ls: Toks, p: int) -> Option<(Seq<(Seq<char>, Seq<char>)>, int)>
    decreases ls.len() - p,
{
    match name_at(ls, p) {
        Some(n) => if sym(ls, p + 1, Symbol::Colon) {
            match name_at(ls, p + 2) {
                Some(ty) => if sym(ls, p + 3, Symbol::Comma) && p + 4 < ls.len() {
                    match g_bindings(ls, p + 4) {
                        Some((rest, q)) => Some((seq![(n, ty)] + rest, q)),
                        None => None,
                    }
                } else {
                    Some((seq![(n, ty)], p + 3))
                },
                None => None,
            }
        } else {
            None
        },
        None => None,
    }
}

/// `prefix` followed by the bindings of `r`, if `r` succeeded.
pub open spec fn bindings_after(
    prefix: Seq<(Seq<char>, Seq<char>)>,
    r: Option<(Seq<(Seq<char>, Seq<char>)>, int)>,
) -> Option<(Seq<(Seq<char>, Seq<char>)>, int)> {
    match r {
        Some((rest, q)) => Some((prefix + rest, q)),
        None => None,
    }
}

pub open spec fn binding_names(bs: Seq<(Seq<char>, Seq<char>)>) -> Seq<Seq<char>> {
    bs.map_values(|b: (Seq<char>, Seq<char>)| b.0)
}

/// The binding power of an operator and whether it groups rightward.
pub open spec fn g_infix(l: Lexeme) -> Option<(int, Symbol, bool)> {
    match l {
        Lexeme::Mark(Symbol::Implies) => Some((1, Symbol::Implies, true)),
        Lexeme::Mark(Symbol::Or) => Some((2, Symbol::Or, false)),
        Lexeme::Mark(Symbol::And) => Some((3, Symbol::And, false)),
        _ => None,
    }
}

/// The parts a conjunction contributes when merged.
pub open spec fn and_parts(f: FormulaV) -> Seq<FormulaV> {
    match f {
        FormulaV::And(ps) => ps,
        _ => seq![f],
    }
}

pub open spec fn or_parts(f: FormulaV) -> Seq<FormulaV> {
    match f {
        FormulaV::Or(ps) => ps,
        _ => seq![f],
    }
}

/// Two formulas joined by an operator; conjunctions and disjunctions flatten.
pub open spec fn combine(s: Symbol, l: FormulaV, r: FormulaV) -> FormulaV {
    if s == Symbol::And {
        FormulaV::And(and_parts(l) + and_parts(r))
    } else if s == Symbol::Or {
        FormulaV::Or(or_parts(l) + or_parts(r))
    } else {
        FormulaV::Implies(Box::new(l), Box::new(r))
    }
}

/// A formula at `p` whose operators bind at least as tightly as `min`, inside `depth`
/// enclosing formulas, and the position after it.
pub open spec fn g_formula(ls: Toks, p: int, min: int, scope: Seq<Seq<char>>, depth: int) -> Option<(FormulaV, int)>
    decreases MAX_NESTING - depth, ls.len() - p, 2int,
{
    if depth + 1 > MAX_NESTING || depth < 0 || !(0 <= p < ls.len()) {
        None
    } else {
        match g_prefix(ls, p, scope, depth + 1) {
            Some((left, q)) => if p < q {
                g_tail(ls, q, min, scope, depth + 1, left)
            } else {
                None
            },
            None => None,
        }
    }
}

/// The operators and operands following `left`, as long as they bind at least as tightly as
/// `min`.
pub open spec fn g_tail(ls: Toks, q: int, min: int, scope: Seq<Seq<char>>, nested: int, left: FormulaV) -> Option<(FormulaV, int)>
    decreases MAX_NESTING - nested, ls.len() - q, 1int,
{
    if !(0 <= q < ls.len()) || nested > MAX_NESTING || nested < 1 {
        None
    } else {
        match g_infix(tok(ls, q)) {
            None => Some((left, q)),
            Some((precedence, s, right)) => if precedence < min {
                Some((left, q))
            } else {
                match g_formula(ls, q + 1, if right { precedence } else { precedence + 1 }, scope, nested) {
                    Some((rhs, q2)) => if q + 1 < q2 && q2 < ls.len() {
                        g_tail(ls, q2, min, scope, nested, combine(s, left, rhs))
                    } else {
                        None
                    },
                    None => None,
                }
            },
        }
    }
}

/// A negation, a parenthesized formula, a constant, a quantifier, an atom, or an equality.
pub open spec fn g_prefix(ls: Toks, p: int, scope: Seq<Seq<char>>, depth: int) -> Option<(FormulaV, int)>
    decreases MAX_NESTING - depth, ls.len() - p, 4int,
{
    if !(0 <= p < ls.len()) || depth > MAX_NESTING || depth < 1 {
        None
    } else if sym(ls, p, Symbol::Not) {
        match g_formula(ls, p + 1, 4, scope, depth) {
            Some((inner, q)) => Some((FormulaV::Not(Box::new(inner)), q)),
            None => None,
        }
    } else if sym(ls, p, Symbol::LParen) {
        match g_formula(ls, p + 1, 0, scope, depth) {
            Some((inner, q)) => if sym(ls, q, Symbol::RParen) { Some((inner, q + 1)) } else { None },
            None => None,
        }
    } else if word_is(ls, p, "true"@) {
        Some((FormulaV::And(Seq::empty()), p + 1))
    } else if word_is(ls, p, "false"@) {
        Some((FormulaV::Or(Seq::empty()), p + 1))
    } else if word_is(ls, p, "forall"@) || word_is(ls, p, "exists"@) {
        g_quantified(ls, p, scope, depth)
    } else {
        match tok(ls, p) {
            Lexeme::Word(_) => g_application(ls, p, scope),
            _ => None,
        }
    }
}

/// `forall` or `exists`, bindings, `.`, and a body reaching the end of the formula.
pub open spec fn g_quantified(ls: Toks, p: int, scope: Seq<Seq<char>>, depth: int) -> Option<(FormulaV, int)>
    decreases MAX_NESTING - depth, ls.len() - p, 3int,
{
    if !(0 <= p < ls.len()) || depth > MAX_NESTING || depth < 1 {
        None
    } else {
        match g_bindings(ls, p + 1) {
            Some((bs, q)) => if sym(ls, q, Symbol::Dot) && p < q {
                match g_formula(ls, q + 1, 0, scope + binding_names(bs), depth) {
                    Some((body, r)) => Some((
                        if word_is(ls, p, "forall"@) {
                            FormulaV::Forall(bs, Box::new(body))
                        } else {
                            FormulaV::Exists(bs, Box::new(body))
                        },
                        r,
                    )),
                    None => None,
                }
            } else {
                None
            },
            None => None,
        }
    }
}

// ----------------------------------------------------------------------------------------------
// Sections
// ----------------------------------------------------------------------------------------------

/// `name, name, ...` as names.
pub open spec fn g_names(ls: Toks, p: int) -> Option<(Seq<Seq<char>>, int)>
    decreases ls.len() - p,
{
    match name_at(ls, p) {
        Some(n) => if sym(ls, p + 1, Symbol::Comma) && p + 2 < ls.len() {
            match g_names(ls, p + 2) {
                Some((rest, q)) => Some((seq![n] + rest, q)),
                None => None,
            }
        } else {
            Some((seq![n], p + 1))
        },
        None => None,
    }
}

/// `prefix` followed by the names of `r`, if `r` succeeded.
pub open spec fn names_after(prefix: Seq<Seq<char>>, r: Option<(Seq<Seq<char>>, int)>) -> Option<(Seq<Seq<char>>, int)> {
    match r {
        Some((rest, q)) => Some((prefix + rest, q)),
        None => None,
    }
}

/// The names after a comma at `p`, if there is one.
pub open spec fn names_tail(ls: Toks, p: int) -> Option<(Seq<Seq<char>>, int)> {
    if sym(ls, p, Symbol::Comma) && p + 1 < ls.len() {
        g_names(ls, p + 1)
    } else {
        Some((Seq::empty(), p))
    }
}

/// The body of a `types` section: nothing or names, then `;`.
pub open spec fn g_types(ls: Toks, p: int) -> Option<(Seq<Seq<char>>, int)> {
    if sym(ls, p, Symbol::Semi) {
        Some((Seq::empty(), p + 1))
    } else {
        match g_names(ls, p) {
            Some((ns, q)) => if sym(ls, q, Symbol::Semi) { Some((ns, q + 1)) } else { None },
            None => None,
        }
    }
}

/// Each of `names` bound to `ty`.
pub open spec fn typed(names: Seq<Seq<char>>, ty: Seq<char>) -> Seq<(Seq<char>, Seq<char>)> {
    names.map_values(|n: Seq<char>| (n, ty))
}

/// Object declarations `names: type;` up to and including the closing brace.
pub open spec fn g_object_decls(ls: Toks, q: int) -> Option<(Seq<(Seq<char>, Seq<char>)>, int)>
    decreases ls.len() - q,
{
    if !(0 <= q < ls.len()) {
        None
    } else if sym(ls, q, Symbol::RBrace) {
        Some((Seq::empty(), q + 1))
    } else {
        match g_names(ls, q) {
            Some((ns, q1)) => if q < q1 && q1 + 3 <= ls.len() && sym(ls, q1, Symbol::Colon) && sym(ls, q1 + 2, Symbol::Semi) {
                match name_at(ls, q1 + 1) {
                    Some(ty) => match g_object_decls(ls, q1 + 3) {
                        Some((rest, r)) => Some((typed(ns, ty) + rest, r)),
                        None => None,
                    },
                    None => None,
                }
            } else {
                None
            },
            None => None,
        }
    }
}

/// The body of an `objects` section.
pub open spec fn g_objects(ls: Toks, p: int) -> Option<(Seq<(Seq<char>, Seq<char>)>, int)> {
    if sym(ls, p, Symbol::LBrace) {
        g_object_decls(ls, p + 1)
    } else {
        None
    }
}

/// Predicate declarations `Name(types);` up to and including the closing brace.
pub open spec fn g_predicate_decls(ls: Toks, q: int) -> Option<(Seq<(Seq<char>, Seq<Seq<char>>)>, int)>
    decreases ls.len() - q,
{
    if !(0 <= q < ls.len()) {
        None
    } else if sym(ls, q, Symbol::RBrace) {
        Some((Seq::empty(), q + 1))
    } else {
        match name_at(ls, q) {
            Some(n) => if sym(ls, q + 1, Symbol::LParen) {
                let params: Option<(Seq<Seq<char>>, int)> = if sym(ls, q + 2, Symbol::RParen) {
                    Some((Seq::empty(), q + 2))
                } else {
                    g_names(ls, q + 2)
                };
                match params {
                    Some((ps, q1)) => if q < q1 && q1 + 2 <= ls.len() && sym(ls, q1, Symbol::RParen) && sym(ls, q1 + 1, Symbol::Semi) {
                        match g_predicate_decls(ls, q1 + 2) {
                            Some((rest, r)) => Some((seq![(n, ps)] + rest, r)),
                            None => None,
                        }
                    } else {
                        None
                    },
                    None => None,
                }
            } else {
                None
            },
            None => None,
        }
    }
}

/// `prefix` followed by the declarations of `r`, if `r` succeeded.
pub open spec fn decls_after(
    prefix: Seq<(Seq<char>, Seq<Seq<char>>)>,
    r: Option<(Seq<(Seq<char>, Seq<Seq<char>>)>, int)>,
) -> Option<(Seq<(Seq<char>, Seq<Seq<char>>)>, int)> {
    match r {
        Some((rest, q)) => Some((prefix + rest, q)),
        None => None,
    }
}

/// The body of a `predicates` section.
pub open spec fn g_predicates(ls: Toks, p: int) -> Option<(Seq<(Seq<char>, Seq<Seq<char>>)>, int)> {
    if sym(ls, p, Symbol::LBrace) {
        g_predicate_decls(ls, p + 1)
    } else {
        None
    }
}

/// An effect: the atoms it adds and the atoms it deletes, in order, if it is a conjunction of
/// atoms and negated atoms.
pub open spec fn effects_of(f: FormulaV) -> Option<(Seq<(Seq<char>, Seq<TermV>)>, Seq<(Seq<char>, Seq<TermV>)>)>
    decreases f,
{
    match f {
        FormulaV::And(ps) => effects_all(ps),
        FormulaV::Atom(n, ts) => Some((seq![(n, ts)], Seq::empty())),
        FormulaV::Not(g) => match *g {
            FormulaV::Atom(n, ts) => Some((Seq::empty(), seq![(n, ts)])),
            _ => None,
        },
        _ => None,
    }
}

pub open spec fn effects_all(ps: Seq<FormulaV>) -> Option<(Seq<(Seq<char>, Seq<TermV>)>, Seq<(Seq<char>, Seq<TermV>)>)>
    decreases ps,
{
    if ps.len() == 0 {
        Some((Seq::empty(), Seq::empty()))
    } else {
        match effects_of(ps[0]) {
            Some((a, d)) => match effects_all(ps.subrange(1, ps.len() as int)) {
                Some((a2, d2)) => Some((a + a2, d + d2)),
                None => None,
            },
            None => None,
        }
    }
}

/// The atoms of an effect, as values.
pub open spec fn atoms_v(s: Seq<Atom>) -> Seq<(Seq<char>, Seq<TermV>)> {
    s.map_values(|x: Atom| atom_v(x))
}

/// `prefix` followed by the additions and deletions of `r`, if `r` succeeded.
pub open spec fn effects_after(
    prefix: (Seq<(Seq<char>, Seq<TermV>)>, Seq<(Seq<char>, Seq<TermV>)>),
    r: Option<(Seq<(Seq<char>, Seq<TermV>)>, Seq<(Seq<char>, Seq<TermV>)>)>,
) -> Option<(Seq<(Seq<char>, Seq<TermV>)>, Seq<(Seq<char>, Seq<TermV>)>)> {
    match r {
        Some((a, d)) => Some((prefix.0 + a, prefix.1 + d)),
        None => None,
    }
}

/// `prefix` joined with the facts of `r`, if `r` succeeded.
pub open spec fn facts_after(prefix: Set<AtomV>, r: Option<Set<AtomV>>) -> Option<Set<AtomV>> {
    match r {
        Some(a) => Some(prefix + a),
        None => None,
    }
}

/// The object names of ground terms.
pub open spec fn ground_terms(ts: Seq<TermV>) -> bool {
    forall|i: int| 0 <= i < ts.len() ==> #[trigger] ts[i] is Obj
}

pub open spec fn object_names(ts: Seq<TermV>) -> Seq<Seq<char>> {
    ts.map_values(|t: TermV| match t {
        TermV::Var(n) => n,
        TermV::Obj(n) => n,
    })
}

/// The facts of an initial state, if it is a conjunction of atoms over objects.
pub open spec fn facts_of(f: FormulaV) -> Option<Set<AtomV>>
    decreases f,
{
    match f {
        FormulaV::And(ps) => facts_all(ps),
        FormulaV::Atom(n, ts) => if ground_terms(ts) { Some(set![(n, object_names(ts))]) } else { None },
        _ => None,
    }
}

pub open spec fn facts_all(ps: Seq<FormulaV>) -> Option<Set<AtomV>>
    decreases ps,
{
    if ps.len() == 0 {
        Some(Set::empty())
    } else {
        match facts_of(ps[0]) {
            Some(a) => match facts_all(ps.subrange(1, ps.len() as int)) {
                Some(b) => Some(a + b),
                None => None,
            },
            None => None,
        }
    }
}

/// The fields of an action body, `pre` and `effect` once each, up to and including the
/// closing brace.
pub open spec fn g_fields(
    ls: Toks,
    q: int,
    scope: Seq<Seq<char>>,
    pre: Option<FormulaV>,
    effect: Option<(Seq<(Seq<char>, Seq<TermV>)>, Seq<(Seq<char>, Seq<TermV>)>)>,
) -> Option<(Option<FormulaV>, Option<(Seq<(Seq<char>, Seq<TermV>)>, Seq<(Seq<char>, Seq<TermV>)>)>, int)>
    decreases ls.len() - q,
{
    if !(0 <= q < ls.len()) {
        None
    } else if sym(ls, q, Symbol::RBrace) {
        Some((pre, effect, q + 1))
    } else {
        match name_at(ls, q) {
            Some(field) => if !sym(ls, q + 1, Symbol::Colon) {
                None
            } else if field == "pre"@ && pre is None {
                match g_formula(ls, q + 2, 0, scope, 0) {
                    Some((f, q2)) => if q < q2 && q2 < ls.len() && sym(ls, q2, Symbol::Semi) {
                        g_fields(ls, q2 + 1, scope, Some(f), effect)
                    } else {
                        None
                    },
                    None => None,
                }
            } else if field == "effect"@ && effect is None {
                match g_formula(ls, q + 2, 0, scope, 0) {
                    Some((f, q2)) => if q < q2 && q2 < ls.len() && sym(ls, q2, Symbol::Semi) && effects_of(f) is Some {
                        g_fields(ls, q2 + 1, scope, pre, effects_of(f))
                    } else {
                        None
                    },
                    None => None,
                }
            } else {
                None
            },
            None => None,
        }
    }
}

/// An action after its keyword: `Name(params) { fields }`.
pub open spec fn g_action(ls: Toks, p: int) -> Option<(ActionV, int)> {
    match name_at(ls, p) {
        Some(n) => if sym(ls, p + 1, Symbol::LParen) {
            let params: Option<(Seq<(Seq<char>, Seq<char>)>, int)> = if sym(ls, p + 2, Symbol::RParen) {
                Some((Seq::empty(), p + 2))
            } else {
                g_bindings(ls, p + 2)
            };
            match params {
                Some((bs, q)) => if sym(ls, q, Symbol::RParen) && sym(ls, q + 1, Symbol::LBrace) {
                    match g_fields(ls, q + 2, binding_names(bs), None, None) {
                        Some((Some(pre), Some(effect), r)) => Some((
                            ActionV { name: n, parameters: bs, precondition: pre, add: effect.0, delete: effect.1 },
                            r,
                        )),
                        _ => None,
                    }
                } else {
                    None
                },
                None => None,
            }
        } else {
            None
        },
        None => None,
    }
}

/// The sections read so far.
pub struct SectionsV {
    pub types: Option<Seq<Seq<char>>>,
    pub objects: Option<Seq<(Seq<char>, Seq<char>)>>,
    pub predicates: Option<Seq<(Seq<char>, Seq<Seq<char>>)>>,
    pub initial: Option<Set<AtomV>>,
    pub goal: Option<FormulaV>,
    pub actions: Seq<ActionV>,
}

/// The sections of a task body, each but actions at most once, up to and including the
/// closing brace.
pub open spec fn g_sections(ls: Toks, q: int, acc: SectionsV) -> Option<(SectionsV, int)>
    decreases ls.len() - q,
{
    if !(0 <= q < ls.len()) || tok(ls, q) is Stop {
        None
    } else if sym(ls, q, Symbol::RBrace) {
        Some((acc, q + 1))
    } else if word_is(ls, q, "types"@) {
        match g_types(ls, q + 1) {
            Some((v, q2)) => if acc.types is None && q < q2 && q2 <= ls.len() {
                g_sections(ls, q2, SectionsV { types: Some(v), ..acc })
            } else {
                None
            },
            None => None,
        }
    } else if word_is(ls, q, "objects"@) {
        match g_objects(ls, q + 1) {
            Some((v, q2)) => if acc.objects is None && q < q2 && q2 <= ls.len() {
                g_sections(ls, q2, SectionsV { objects: Some(v), ..acc })
            } else {
                None
            },
            None => None,
        }
    } else if word_is(ls, q, "predicates"@) {
        match g_predicates(ls, q + 1) {
            Some((v, q2)) => if acc.predicates is None && q < q2 && q2 <= ls.len() {
                g_sections(ls, q2, SectionsV { predicates: Some(v), ..acc })
            } else {
                None
            },
            None => None,
        }
    } else if word_is(ls, q, "init"@) {
        if acc.initial is None && sym(ls, q + 1, Symbol::Colon) {
            match g_formula(ls, q + 2, 0, Seq::empty(), 0) {
                Some((f, q2)) => if q < q2 && q2 < ls.len() && sym(ls, q2, Symbol::Semi) && facts_of(f) is Some {
                    g_sections(ls, q2 + 1, SectionsV { initial: facts_of(f), ..acc })
                } else {
                    None
                },
                None => None,
            }
        } else {
            None
        }
    } else if word_is(ls, q, "goal"@) {
        if acc.goal is None && sym(ls, q + 1, Symbol::Colon) {
            match g_formula(ls, q + 2, 0, Seq::empty(), 0) {
                Some((f, q2)) => if q < q2 && q2 < ls.len() && sym(ls, q2, Symbol::Semi) {
                    g_sections(ls, q2 + 1, SectionsV { goal: Some(f), ..acc })
                } else {
                    None
                },
                None => None,
            }
        } else {
            None
        }
    } else if word_is(ls, q, "action"@) {
        match g_action(ls, q + 1) {
            Some((a, q2)) => if q < q2 && q2 <= ls.len() {
                g_sections(ls, q2, SectionsV { actions: acc.actions.push(a), ..acc })
            } else {
                None
            },
            None => None,
        }
    } else {
        None
    }
}

/// No section read yet.
pub open spec fn no_sections() -> SectionsV {
    SectionsV { types: None, objects: None, predicates: None, initial: None, goal: None, actions: Seq::empty() }
}

/// A whole task: `problem name { sections }` and nothing after it, with every section but
/// actions present.
pub open spec fn g_task(ls: Toks) -> Option<TaskV> {
    if word_is(ls, 0, "problem"@) && sym(ls, 2, Symbol::LBrace) {
        match name_at(ls, 1) {
            Some(n) => match g_sections(ls, 3, no_sections()) {
                Some((secs, q)) => if tok(ls, q) is Stop {
                    match (secs.types, secs.objects, secs.predicates, secs.initial, secs.goal) {
                        (Some(types), Some(objects), Some(predicates), Some(initial), Some(goal)) => Some(TaskV {
                            name: n,
                            types,
                            objects,
                            predicates,
                            actions: secs.actions,
                            initial,
                            goal,
                        }),
                        _ => None,
                    }
                } else {
                    None
                },
                None => None,
            },
            None => None,
        }
    } else {
        None
    }
}



// ----------------------------------------------------------------------------------------------
// Where reading a formula stops
// ----------------------------------------------------------------------------------------------

/// A failure: the position of the offending token and a message.
pub type Failure = (int, Seq<char>);

/// What `f_*` gives where its reading succeeds; it is never reported.
pub open spec fn no_failure() -> Failure {
    (0, Seq::empty())
}

/// The failure to read a name at `p`: a reserved word, or no word at all.
pub open spec fn name_failure(ls: Toks, p: int) -> Failure {
    match tok(ls, p) {
        Lexeme::Word(n) => (p, "reserved word '"@ + n + "' cannot be used as a name"@),
        _ => (p, "expected an identifier"@),
    }
}

/// The failure to find the symbol `s` at `p`.
pub open spec fn symbol_failure(p: int, s: Symbol) -> Failure {
    (p, "expected "@ + crate::dsl::symbol_text(s))
}

/// Where reading `name, name, ...` as terms fails, when `g_terms` does.
pub open spec fn f_terms(ls: Toks, p: int) -> Failure
    decreases ls.len() - p,
{
    match name_at(ls, p) {
        None => name_failure(ls, p),
        Some(_) => if sym(ls, p + 1, Symbol::Comma) && p + 2 < ls.len() && p >= 0 {
            f_terms(ls, p + 2)
        } else {
            no_failure()
        },
    }
}

/// Where reading an atom or an equality fails, when `g_application` does.
pub open spec fn f_application(ls: Toks, p: int, scope: Seq<Seq<char>>) -> Failure {
    match name_at(ls, p) {
        None => name_failure(ls, p),
        Some(_) => if sym(ls, p + 1, Symbol::Equal) || sym(ls, p + 1, Symbol::NotEqual) {
            name_failure(ls, p + 2)
        } else if sym(ls, p + 1, Symbol::LParen) {
            match g_terms(ls, p + 2, scope) {
                None => f_terms(ls, p + 2),
                Some((_, q)) => symbol_failure(q, Symbol::RParen),
            }
        } else {
            symbol_failure(p + 1, Symbol::LParen)
        },
    }
}

/// Where reading `name: type, ...` fails, when `g_bindings` does.
pub open spec fn f_bindings(ls: Toks, p: int) -> Failure
    decreases ls.len() - p,
{
    if name_at(ls, p) is None {
        name_failure(ls, p)
    } else if !sym(ls, p + 1, Symbol::Colon) {
        symbol_failure(p + 1, Symbol::Colon)
    } else if name_at(ls, p + 2) is None {
        name_failure(ls, p + 2)
    } else if sym(ls, p + 3, Symbol::Comma) && p + 4 < ls.len() && p >= 0 {
        f_bindings(ls, p + 4)
    } else {
        no_failure()
    }
}

/// Where reading a formula fails, when `g_formula` does: the first token that cannot continue
/// it, or the token at which nesting passes the limit.
pub open spec fn f_formula(ls: Toks, p: int, min: int, scope: Seq<Seq<char>>, depth: int) -> Failure
    decreases MAX_NESTING - depth, ls.len() - p, 2int,
{
    if depth + 1 > MAX_NESTING {
        (p, "maximum formula nesting depth exceeded"@)
    } else if depth < 0 || !(0 <= p < ls.len()) {
        no_failure()
    } else {
        match g_prefix(ls, p, scope, depth + 1) {
            None => f_prefix(ls, p, scope, depth + 1),
            Some((left, q)) => if p < q {
                f_tail(ls, q, min, scope, depth + 1, left)
            } else {
                no_failure()
            },
        }
    }
}

/// Where reading the operators and operands after `left` fails, when `g_tail` does.
pub open spec fn f_tail(ls: Toks, q: int, min: int, scope: Seq<Seq<char>>, nested: int, left: FormulaV) -> Failure
    decreases MAX_NESTING - nested, ls.len() - q, 1int,
{
    if !(0 <= q < ls.len()) || nested > MAX_NESTING || nested < 1 {
        no_failure()
    } else {
        match g_infix(tok(ls, q)) {
            None => no_failure(),
            Some((precedence, s, right)) => if precedence < min {
                no_failure()
            } else {
                let next = if right { precedence } else { precedence + 1 };
                match g_formula(ls, q + 1, next, scope, nested) {
                    None => f_formula(ls, q + 1, next, scope, nested),
                    Some((rhs, q2)) => if q + 1 < q2 && q2 < ls.len() {
                        f_tail(ls, q2, min, scope, nested, combine(s, left, rhs))
                    } else {
                        no_failure()
                    },
                }
            },
        }
    }
}

/// Where reading a prefix formula fails, when `g_prefix` does.
pub open spec fn f_prefix(ls: Toks, p: int, scope: Seq<Seq<char>>, depth: int) -> Failure
    decreases MAX_NESTING - depth, ls.len() - p, 4int,
{
    if !(0 <= p < ls.len()) || depth > MAX_NESTING || depth < 1 {
        no_failure()
    } else if sym(ls, p, Symbol::Not) {
        f_formula(ls, p + 1, 4, scope, depth)
    } else if sym(ls, p, Symbol::LParen) {
        match g_formula(ls, p + 1, 0, scope, depth) {
            None => f_formula(ls, p + 1, 0, scope, depth),
            Some((_, q)) => symbol_failure(q, Symbol::RParen),
        }
    } else if word_is(ls, p, "true"@) || word_is(ls, p, "false"@) {
        no_failure()
    } else if word_is(ls, p, "forall"@) || word_is(ls, p, "exists"@) {
        f_quantified(ls, p, scope, depth)
    } else {
        match tok(ls, p) {
            Lexeme::Word(_) => f_application(ls, p, scope),
            _ => (p, "expected a formula"@),
        }
    }
}

/// Where reading a quantified formula fails, when `g_quantified` does.
pub open spec fn f_quantified(ls: Toks, p: int, scope: Seq<Seq<char>>, depth: int) -> Failure
    decreases MAX_NESTING - depth, ls.len() - p, 3int,
{
    if !(0 <= p < ls.len()) || depth > MAX_NESTING || depth < 1 {
        no_failure()
    } else {
        match g_bindings(ls, p + 1) {
            None => f_bindings(ls, p + 1),
            Some((bs, q)) => if !sym(ls, q, Symbol::Dot) {
                symbol_failure(q, Symbol::Dot)
            } else if p < q {
                f_formula(ls, q + 1, 0, scope + binding_names(bs), depth)
            } else {
                no_failure()
            },
        }
    }
}

/// Where reading `name, name, ...` fails, when `g_names` does.
pub open spec fn f_names(ls: Toks, p: int) -> Failure
    decreases ls.len() - p,
{
    match name_at(ls, p) {
        None => name_failure(ls, p),
        Some(_) => if sym(ls, p + 1, Symbol::Comma) && p + 2 < ls.len() && p >= 0 {
            f_names(ls, p + 2)
        } else {
            no_failure()
        },
    }
}

/// Where reading the names after a comma at `p` fails, when `names_tail` does.
pub open spec fn f_names_tail(ls: Toks, p: int) -> Failure {
    if sym(ls, p, Symbol::Comma) && p + 1 < ls.len() {
        f_names(ls, p + 1)
    } else {
        no_failure()
    }
}

/// Where reading the body of a `types` section fails, when `g_types` does.
pub open spec fn f_types(ls: Toks, p: int) -> Failure {
    if sym(ls, p, Symbol::Semi) {
        no_failure()
    } else {
        match g_names(ls, p) {
            None => f_names(ls, p),
            Some((_, q)) => symbol_failure(q, Symbol::Semi),
        }
    }
}

/// Where reading object declarations fails, when `g_object_decls` does.
pub open spec fn f_object_decls(ls: Toks, q: int) -> Failure
    decreases ls.len() - q,
{
    if !(0 <= q < ls.len()) || sym(ls, q, Symbol::RBrace) {
        no_failure()
    } else if tok(ls, q) is Stop {
        (q, "unclosed objects block"@)
    } else {
        match g_names(ls, q) {
            None => f_names(ls, q),
            Some((_, q1)) => if !sym(ls, q1, Symbol::Colon) {
                symbol_failure(q1, Symbol::Colon)
            } else if name_at(ls, q1 + 1) is None {
                name_failure(ls, q1 + 1)
            } else if !sym(ls, q1 + 2, Symbol::Semi) {
                symbol_failure(q1 + 2, Symbol::Semi)
            } else if q < q1 && q1 + 3 <= ls.len() {
                f_object_decls(ls, q1 + 3)
            } else {
                no_failure()
            },
        }
    }
}

/// Where reading the body of an `objects` section fails, when `g_objects` does.
pub open spec fn f_objects(ls: Toks, p: int) -> Failure {
    if !sym(ls, p, Symbol::LBrace) {
        symbol_failure(p, Symbol::LBrace)
    } else {
        f_object_decls(ls, p + 1)
    }
}

/// Where reading predicate declarations fails, when `g_predicate_decls` does.
pub open spec fn f_predicate_decls(ls: Toks, q: int) -> Failure
    decreases ls.len() - q,
{
    if !(0 <= q < ls.len()) || sym(ls, q, Symbol::RBrace) {
        no_failure()
    } else if tok(ls, q) is Stop {
        (q, "unclosed predicates block"@)
    } else if name_at(ls, q) is None {
        name_failure(ls, q)
    } else if !sym(ls, q + 1, Symbol::LParen) {
        symbol_failure(q + 1, Symbol::LParen)
    } else {
        let params: Option<(Seq<Seq<char>>, int)> = if sym(ls, q + 2, Symbol::RParen) {
            Some((Seq::empty(), q + 2))
        } else {
            g_names(ls, q + 2)
        };
        match params {
            None => f_names(ls, q + 2),
            Some((_, q1)) => if !sym(ls, q1, Symbol::RParen) {
                symbol_failure(q1, Symbol::RParen)
            } else if !sym(ls, q1 + 1, Symbol::Semi) {
                symbol_failure(q1 + 1, Symbol::Semi)
            } else if q < q1 && q1 + 2 <= ls.len() {
                f_predicate_decls(ls, q1 + 2)
            } else {
                no_failure()
            },
        }
    }
}

/// Where reading the body of a `predicates` section fails, when `g_predicates` does.
pub open spec fn f_predicates(ls: Toks, p: int) -> Failure {
    if !sym(ls, p, Symbol::LBrace) {
        symbol_failure(p, Symbol::LBrace)
    } else {
        f_predicate_decls(ls, p + 1)
    }
}

/// Why an `init` formula does not give facts, when `facts_of` fails.
pub open spec fn facts_failure(f: FormulaV) -> Seq<char>
    decreases f, 1int,
{
    match f {
        FormulaV::And(ps) => facts_all_failure(ps),
        FormulaV::Atom(_, _) => "initial facts cannot contain variables"@,
        _ => "init supports only positive atoms joined by conjunction"@,
    }
}

pub open spec fn facts_all_failure(ps: Seq<FormulaV>) -> Seq<char>
    decreases ps, 0int,
{
    if ps.len() == 0 {
        Seq::empty()
    } else if facts_of(ps[0]) is None {
        facts_failure(ps[0])
    } else {
        facts_all_failure(ps.subrange(1, ps.len() as int))
    }
}

/// Why an effect formula does not give effects, when `effects_of` fails.
pub open spec fn effects_failure(f: FormulaV) -> Seq<char>
    decreases f, 1int,
{
    match f {
        FormulaV::And(ps) => effects_all_failure(ps),
        FormulaV::Not(_) => "effects may negate atoms only"@,
        _ => "effects support only atoms, negated atoms, and conjunctions"@,
    }
}

pub open spec fn effects_all_failure(ps: Seq<FormulaV>) -> Seq<char>
    decreases ps, 0int,
{
    if ps.len() == 0 {
        Seq::empty()
    } else if effects_of(ps[0]) is None {
        effects_failure(ps[0])
    } else {
        effects_all_failure(ps.subrange(1, ps.len() as int))
    }
}

/// Where reading the fields of an action body fails, when `g_fields` does.
pub open spec fn f_fields(
    ls: Toks,
    q: int,
    scope: Seq<Seq<char>>,
    pre: Option<FormulaV>,
    effect: Option<(Seq<(Seq<char>, Seq<TermV>)>, Seq<(Seq<char>, Seq<TermV>)>)>,
) -> Failure
    decreases ls.len() - q,
{
    if !(0 <= q < ls.len()) || sym(ls, q, Symbol::RBrace) {
        no_failure()
    } else if tok(ls, q) is Stop {
        (q, "unclosed action block"@)
    } else {
        match name_at(ls, q) {
            None => name_failure(ls, q),
            Some(field) => if !sym(ls, q + 1, Symbol::Colon) {
                symbol_failure(q + 1, Symbol::Colon)
            } else if field == "pre"@ {
                if pre is Some {
                    (q + 1, "duplicate action pre section"@)
                } else {
                    match g_formula(ls, q + 2, 0, scope, 0) {
                        None => f_formula(ls, q + 2, 0, scope, 0),
                        Some((f, q2)) => if !(q < q2 && q2 < ls.len()) {
                            no_failure()
                        } else if !sym(ls, q2, Symbol::Semi) {
                            symbol_failure(q2, Symbol::Semi)
                        } else {
                            f_fields(ls, q2 + 1, scope, Some(f), effect)
                        },
                    }
                }
            } else if field == "effect"@ {
                if effect is Some {
                    (q + 1, "duplicate action effect section"@)
                } else {
                    match g_formula(ls, q + 2, 0, scope, 0) {
                        None => f_formula(ls, q + 2, 0, scope, 0),
                        Some((f, q2)) => if !(q < q2 && q2 < ls.len()) {
                            no_failure()
                        } else if effects_of(f) is None {
                            (q2 - 1, effects_failure(f))
                        } else if !sym(ls, q2, Symbol::Semi) {
                            symbol_failure(q2, Symbol::Semi)
                        } else {
                            f_fields(ls, q2 + 1, scope, pre, effects_of(f))
                        },
                    }
                }
            } else {
                (q + 1, "unknown action field '"@ + field + "'"@)
            },
        }
    }
}

/// Where reading an action after its keyword fails, when `g_action` does.
pub open spec fn f_action(ls: Toks, p: int) -> Failure {
    if name_at(ls, p) is None {
        name_failure(ls, p)
    } else if !sym(ls, p + 1, Symbol::LParen) {
        symbol_failure(p + 1, Symbol::LParen)
    } else {
        let params: Option<(Seq<(Seq<char>, Seq<char>)>, int)> = if sym(ls, p + 2, Symbol::RParen) {
            Some((Seq::empty(), p + 2))
        } else {
            g_bindings(ls, p + 2)
        };
        match params {
            None => f_bindings(ls, p + 2),
            Some((bs, q)) => if !sym(ls, q, Symbol::RParen) {
                symbol_failure(q, Symbol::RParen)
            } else if !sym(ls, q + 1, Symbol::LBrace) {
                symbol_failure(q + 1, Symbol::LBrace)
            } else {
                match g_fields(ls, q + 2, binding_names(bs), None, None) {
                    None => f_fields(ls, q + 2, binding_names(bs), None, None),
                    Some((pre, effect, r)) => if pre is None {
                        (r - 1, "action is missing pre"@)
                    } else if effect is None {
                        (r - 1, "action is missing effect"@)
                    } else {
                        no_failure()
                    },
                }
            },
        }
    }
}

// ----------------------------------------------------------------------------------------------
// Where reading a task stops
// ----------------------------------------------------------------------------------------------

/// How reading the sections of a task body ends: closed by its brace, with the sections read
/// and the position after the brace; or at a position, with a message. `InsideSection`
/// covers a section body read without advancing past its keyword.
pub enum SectionsEnd {
    Closed(SectionsV, int),
    InsideSection,
    Fails(int, Seq<char>),
}

/// Reads sections as `g_sections` does, reporting where the section layer fails.
pub open spec fn g_sections_end(ls: Toks, q: int, acc: SectionsV) -> SectionsEnd
    decreases ls.len() - q,
{
    if !(0 <= q < ls.len()) {
        SectionsEnd::InsideSection
    } else if tok(ls, q) is Stop {
        SectionsEnd::Fails(q, "unclosed problem block"@)
    } else if sym(ls, q, Symbol::RBrace) {
        SectionsEnd::Closed(acc, q + 1)
    } else if word_is(ls, q, "types"@) {
        if acc.types is Some {
            SectionsEnd::Fails(q, "duplicate types section"@)
        } else {
            match g_types(ls, q + 1) {
                Some((v, q2)) => if q < q2 && q2 <= ls.len() {
                    g_sections_end(ls, q2, SectionsV { types: Some(v), ..acc })
                } else {
                    SectionsEnd::InsideSection
                },
                None => {
                    let (p2, m) = f_types(ls, q + 1);
                    SectionsEnd::Fails(p2, m)
                },
            }
        }
    } else if word_is(ls, q, "objects"@) {
        if acc.objects is Some {
            SectionsEnd::Fails(q, "duplicate objects section"@)
        } else {
            match g_objects(ls, q + 1) {
                Some((v, q2)) => if q < q2 && q2 <= ls.len() {
                    g_sections_end(ls, q2, SectionsV { objects: Some(v), ..acc })
                } else {
                    SectionsEnd::InsideSection
                },
                None => {
                    let (p2, m) = f_objects(ls, q + 1);
                    SectionsEnd::Fails(p2, m)
                },
            }
        }
    } else if word_is(ls, q, "predicates"@) {
        if acc.predicates is Some {
            SectionsEnd::Fails(q, "duplicate predicates section"@)
        } else {
            match g_predicates(ls, q + 1) {
                Some((v, q2)) => if q < q2 && q2 <= ls.len() {
                    g_sections_end(ls, q2, SectionsV { predicates: Some(v), ..acc })
                } else {
                    SectionsEnd::InsideSection
                },
                None => {
                    let (p2, m) = f_predicates(ls, q + 1);
                    SectionsEnd::Fails(p2, m)
                },
            }
        }
    } else if word_is(ls, q, "init"@) {
        if acc.initial is Some {
            SectionsEnd::Fails(q, "duplicate init section"@)
        } else if !sym(ls, q + 1, Symbol::Colon) {
            SectionsEnd::Fails(q + 1, "expected "@ + crate::dsl::symbol_text(Symbol::Colon))
        } else {
            match g_formula(ls, q + 2, 0, Seq::empty(), 0) {
                Some((f, q2)) => if !(q < q2 && q2 < ls.len()) {
                    SectionsEnd::InsideSection
                } else if facts_of(f) is None {
                    SectionsEnd::Fails(q2 - 1, facts_failure(f))
                } else if !sym(ls, q2, Symbol::Semi) {
                    SectionsEnd::Fails(q2, "expected "@ + crate::dsl::symbol_text(Symbol::Semi))
                } else {
                    g_sections_end(ls, q2 + 1, SectionsV { initial: facts_of(f), ..acc })
                },
                None => {
                    let (p2, m) = f_formula(ls, q + 2, 0, Seq::empty(), 0);
                    SectionsEnd::Fails(p2, m)
                },
            }
        }
    } else if word_is(ls, q, "goal"@) {
        if acc.goal is Some {
            SectionsEnd::Fails(q, "duplicate goal section"@)
        } else if !sym(ls, q + 1, Symbol::Colon) {
            SectionsEnd::Fails(q + 1, "expected "@ + crate::dsl::symbol_text(Symbol::Colon))
        } else {
            match g_formula(ls, q + 2, 0, Seq::empty(), 0) {
                Some((f, q2)) => if !(q < q2 && q2 < ls.len()) {
                    SectionsEnd::InsideSection
                } else if !sym(ls, q2, Symbol::Semi) {
                    SectionsEnd::Fails(q2, "expected "@ + crate::dsl::symbol_text(Symbol::Semi))
                } else {
                    g_sections_end(ls, q2 + 1, SectionsV { goal: Some(f), ..acc })
                },
                None => {
                    let (p2, m) = f_formula(ls, q + 2, 0, Seq::empty(), 0);
                    SectionsEnd::Fails(p2, m)
                },
            }
        }
    } else if word_is(ls, q, "action"@) {
        match g_action(ls, q + 1) {
            Some((a, q2)) => if q < q2 && q2 <= ls.len() {
                g_sections_end(ls, q2, SectionsV { actions: acc.actions.push(a), ..acc })
            } else {
                SectionsEnd::InsideSection
            },
            None => {
                let (p2, m) = f_action(ls, q + 1);
                SectionsEnd::Fails(p2, m)
            },
        }
    } else {
        match tok(ls, q) {
            Lexeme::Word(w) => SectionsEnd::Fails(q, "unknown section '"@ + w + "'"@),
            _ => SectionsEnd::Fails(q, "expected a section"@),
        }
    }
}

/// The first required section a reading lacks, by name.
pub open spec fn missing_section(secs: SectionsV) -> Option<Seq<char>> {
    if secs.types is None {
        Some("missing required types section"@)
    } else if secs.objects is None {
        Some("missing required objects section"@)
    } else if secs.predicates is None {
        Some("missing required predicates section"@)
    } else if secs.initial is None {
        Some("missing required init section"@)
    } else if secs.goal is None {
        Some("missing required goal section"@)
    } else {
        None
    }
}

/// Where reading a task fails, and with what message: the first token that cannot continue
/// the task read so far, a repeated or missing section, or trailing input.
pub open spec fn g_task_failure(ls: Toks) -> Option<(int, Seq<char>)> {
    if !word_is(ls, 0, "problem"@) {
        Some((0, "expected '"@ + "problem"@ + "'"@))
    } else if name_at(ls, 1) is None {
        match tok(ls, 1) {
            Lexeme::Word(n) => Some((1, "reserved word '"@ + n + "' cannot be used as a name"@)),
            _ => Some((1, "expected an identifier"@)),
        }
    } else if !sym(ls, 2, Symbol::LBrace) {
        Some((2, "expected "@ + crate::dsl::symbol_text(Symbol::LBrace)))
    } else {
        match g_sections_end(ls, 3, no_sections()) {
            SectionsEnd::Closed(secs, q) => if !(tok(ls, q) is Stop) {
                Some((q, "unexpected trailing input"@))
            } else {
                match missing_section(secs) {
                    Some(m) => Some((q - 1, m)),
                    None => None,
                }
            },
            SectionsEnd::InsideSection => None,
            SectionsEnd::Fails(p, m) => Some((p, m)),
        }
    }
}

} // verus!
