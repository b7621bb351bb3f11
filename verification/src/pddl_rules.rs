//! The supported PDDL subset as rules over token sequences and s-expression trees.
use vstd::prelude::*;

use crate::grammar::{
    facts_after, ground_terms, object_names, typed, ActionV, FormulaV, TaskV, TermV,
};
use crate::model::AtomV;
use crate::pddl::{sexp_lex_from, Node, NodeKind, SexpToken, MAX_LIST_DEPTH};
use crate::syntax::{ident_char, letter};

verus! {

// ----------------------------------------------------------------------------------------------
// Trees
// ----------------------------------------------------------------------------------------------

/// An s-expression: a word or a list.
pub enum NodeV {
    Atom(Seq<char>),
    List(Seq<NodeV>),
}

pub open spec fn node_v(n: Node) -> NodeV
    decreases n, 0int,
{
    match n.kind {
        NodeKind::Atom(s) => NodeV::Atom(s@),
        NodeKind::List(items) => NodeV::List(nodes_v(items@)),
    }
}

pub open spec fn nodes_v(ns: Seq<Node>) -> Seq<NodeV>
    decreases ns, 0int,
{
    if ns.len() == 0 {
        Seq::empty()
    } else {
        seq![node_v(ns[0])] + nodes_v(ns.drop_first())
    }
}

/// `nodes_v` maps each node to its value.
pub proof fn lemma_nodes_v(ns: Seq<Node>)
    ensures
        nodes_v(ns).len() == ns.len(),
        forall|i: int| 0 <= i < ns.len() ==> #[trigger] nodes_v(ns)[i] == node_v(ns[i]),
    decreases ns.len(),
{
    if ns.len() > 0 {
        lemma_nodes_v(ns.drop_first());
        assert forall|i: int| 0 <= i < ns.len() implies #[trigger] nodes_v(ns)[i] == node_v(ns[i]) by {
            if i > 0 {
                assert(nodes_v(ns)[i] == nodes_v(ns.drop_first())[i - 1]);
                assert(ns.drop_first()[i - 1] == ns[i]);
            }
        }
    }
}

pub type SexpToks = Seq<(SexpToken, nat, nat)>;

/// One s-expression at `p`, nested `depth` lists deep, and the position after it.
pub open spec fn g_sexp(ls: SexpToks, p: int, depth: int) -> Option<(NodeV, int)>
    decreases MAX_LIST_DEPTH + 1 - depth, ls.len() - p, 1int,
{
    if depth > MAX_LIST_DEPTH || depth < 0 || !(0 <= p < ls.len()) {
        None
    } else {
        match ls[p].0 {
            SexpToken::Close => None,
            SexpToken::Word(w) => Some((NodeV::Atom(w), p + 1)),
            SexpToken::Open => g_items(ls, p + 1, depth, Seq::empty()),
        }
    }
}

/// The rest of a list opened `depth` lists deep, after the items `acc`.
pub open spec fn g_items(ls: SexpToks, q: int, depth: int, acc: Seq<NodeV>) -> Option<(NodeV, int)>
    decreases MAX_LIST_DEPTH + 1 - depth, ls.len() - q, 0int,
{
    if depth > MAX_LIST_DEPTH || depth < 0 || !(0 <= q < ls.len()) {
        None
    } else if ls[q].0 is Close {
        Some((NodeV::List(acc), q + 1))
    } else {
        match g_sexp(ls, q, depth + 1) {
            Some((child, q2)) => if q < q2 <= ls.len() {
                g_items(ls, q2, depth, acc.push(child))
            } else {
                None
            },
            None => None,
        }
    }
}

/// The single s-expression making up a token sequence.
pub open spec fn sexp_tree(ls: SexpToks) -> Option<NodeV> {
    match g_sexp(ls, 0, 0) {
        Some((n, q)) => if q == ls.len() { Some(n) } else { None },
        None => None,
    }
}

/// `text` located at the token at `p`.
pub open spec fn at_token(ls: SexpToks, p: int, text: Seq<char>) -> Seq<char> {
    crate::dsl::message_at(ls[p].1, ls[p].2, text)
}

/// Why no s-expression can be read at `p`, when `g_sexp` fails: the nesting limit, the end of
/// input, a `)` with no list open, or a list left open.
pub open spec fn f_sexp(ls: SexpToks, p: int, depth: int) -> Seq<char>
    decreases MAX_LIST_DEPTH + 1 - depth, ls.len() - p, 1int,
{
    if depth > MAX_LIST_DEPTH {
        if 0 <= p < ls.len() {
            at_token(ls, p, "maximum nesting depth exceeded"@)
        } else {
            crate::dsl::message_at(1, 1, "maximum nesting depth exceeded"@)
        }
    } else if depth < 0 || p < 0 {
        Seq::empty()
    } else if p >= ls.len() {
        "unexpected end of input"@
    } else {
        match ls[p].0 {
            SexpToken::Close => at_token(ls, p, "unexpected ')'"@),
            SexpToken::Word(_) => Seq::empty(),
            SexpToken::Open => f_items(ls, p + 1, depth, p),
        }
    }
}

/// Why the list opened at `start` cannot be completed from `q` on, when `g_items` fails.
pub open spec fn f_items(ls: SexpToks, q: int, depth: int, start: int) -> Seq<char>
    decreases MAX_LIST_DEPTH + 1 - depth, ls.len() - q, 0int,
{
    if depth > MAX_LIST_DEPTH || depth < 0 || q < 0 {
        Seq::empty()
    } else if q >= ls.len() {
        at_token(ls, start, "unclosed list"@)
    } else if ls[q].0 is Close {
        Seq::empty()
    } else {
        match g_sexp(ls, q, depth + 1) {
            None => f_sexp(ls, q, depth + 1),
            Some((_, q2)) => if q < q2 <= ls.len() {
                f_items(ls, q2, depth, start)
            } else {
                Seq::empty()
            },
        }
    }
}

/// Why a token sequence is not a single s-expression, when `sexp_tree` fails.
pub open spec fn sexp_failure(ls: SexpToks) -> Seq<char> {
    match g_sexp(ls, 0, 0) {
        None => f_sexp(ls, 0, 0),
        Some((_, q)) => if q < ls.len() {
            at_token(ls, q, "unexpected trailing input"@)
        } else {
            Seq::empty()
        },
    }
}

// ----------------------------------------------------------------------------------------------
// Names, terms, atoms
// ----------------------------------------------------------------------------------------------

/// `prefix` followed by the items of `r`, if `r` succeeded.
pub open spec fn seq_after<A>(prefix: Seq<A>, r: Option<Seq<A>>) -> Option<Seq<A>> {
    match r {
        Some(rest) => Some(prefix + rest),
        None => None,
    }
}

/// An ASCII letter followed by letters, digits, `_`, or `-`.
pub open spec fn identifier(s: Seq<char>) -> bool {
    &&& s.len() > 0
    &&& letter(s[0])
    &&& forall|j: int| 0 <= j < s.len() ==> ident_char(#[trigger] s[j])
}

/// An identifier, or with `variable` a `?` followed by an identifier, which names it.
pub open spec fn v_name(n: NodeV, variable: bool) -> Option<Seq<char>> {
    match n {
        NodeV::Atom(s) => if variable {
            if s.len() > 0 && s[0] == '?' && identifier(s.drop_first()) {
                Some(s.drop_first())
            } else {
                None
            }
        } else if identifier(s) {
            Some(s)
        } else {
            None
        },
        NodeV::List(_) => None,
    }
}

/// A `?variable` or an object name.
pub open spec fn v_term(n: NodeV) -> Option<TermV> {
    match n {
        NodeV::Atom(s) => if s.len() > 0 && s[0] == '?' {
            match v_name(n, true) {
                Some(x) => Some(TermV::Var(x)),
                None => None,
            }
        } else {
            match v_name(n, false) {
                Some(x) => Some(TermV::Obj(x)),
                None => None,
            }
        },
        NodeV::List(_) => None,
    }
}

/// The words that cannot name a predicate.
pub open spec fn operator_word(s: Seq<char>) -> bool {
    s == "and"@ || s == "or"@ || s == "not"@ || s == "imply"@ || s == "exists"@ || s == "forall"@ || s == "="@
}

pub open spec fn v_predicate_name(n: NodeV) -> Option<Seq<char>> {
    match v_name(n, false) {
        Some(s) => if operator_word(s) { None } else { Some(s) },
        None => None,
    }
}

/// The terms of `items` from index `i` on.
pub open spec fn v_terms_from(items: Seq<NodeV>, i: int) -> Option<Seq<TermV>>
    decreases items.len() - i,
{
    if !(0 <= i < items.len()) {
        Some(Seq::empty())
    } else {
        match v_term(items[i]) {
            Some(t) => match v_terms_from(items, i + 1) {
                Some(rest) => Some(seq![t] + rest),
                None => None,
            },
            None => None,
        }
    }
}

/// `(predicate term ...)`.
pub open spec fn v_atom(n: NodeV) -> Option<(Seq<char>, Seq<TermV>)> {
    match n {
        NodeV::List(items) => if items.len() == 0 {
            None
        } else {
            match v_predicate_name(items[0]) {
                Some(p) => match v_terms_from(items, 1) {
                    Some(ts) => Some((p, ts)),
                    None => None,
                },
                None => None,
            }
        },
        NodeV::Atom(_) => None,
    }
}

/// Whether a node is a list whose first item is the word `w`.
pub open spec fn v_head_is(n: NodeV, w: Seq<char>) -> bool {
    n matches NodeV::List(items) && items.len() > 0 && items[0] == NodeV::Atom(w)
}

/// Names from index `i` on, grouped before `- type`, after the pending `group`; names after
/// the last type are of type `object`.
pub open spec fn v_typed_from(items: Seq<NodeV>, i: int, variables: bool, group: Seq<Seq<char>>) -> Option<Seq<(Seq<char>, Seq<char>)>>
    decreases items.len() - i,
{
    if !(0 <= i < items.len()) {
        Some(typed(group, "object"@))
    } else {
        match items[i] {
            NodeV::Atom(s) => if s == "-"@ {
                if group.len() == 0 || i + 1 >= items.len() {
                    None
                } else {
                    match v_name(items[i + 1], false) {
                        Some(ty) => match v_typed_from(items, i + 2, variables, Seq::empty()) {
                            Some(rest) => Some(typed(group, ty) + rest),
                            None => None,
                        },
                        None => None,
                    }
                }
            } else {
                match v_name(items[i], variables) {
                    Some(n) => v_typed_from(items, i + 1, variables, group.push(n)),
                    None => None,
                }
            },
            NodeV::List(_) => None,
        }
    }
}

// ----------------------------------------------------------------------------------------------
// Formulas and effects
// ----------------------------------------------------------------------------------------------

/// Constructs outside the subset.
pub open spec fn unsupported_word(s: Seq<char>) -> bool {
    s == ":when"@ || s == "when"@ || s == "increase"@ || s == "decrease"@ || s == "assign"@
}

/// A formula nested inside `depth` enclosing formulas.
pub open spec fn v_formula(n: NodeV, depth: int) -> Option<FormulaV>
    decreases MAX_LIST_DEPTH + 1 - depth, 0int,
{
    if depth > MAX_LIST_DEPTH || depth < 0 {
        None
    } else {
        match n {
            NodeV::Atom(_) => None,
            NodeV::List(items) => if items.len() == 0 {
                None
            } else {
                match items[0] {
                    NodeV::List(_) => None,
                    NodeV::Atom(op) => if op == "and"@ || op == "or"@ {
                        match v_formulas_from(items, 1, depth + 1) {
                            Some(ps) => Some(if op == "and"@ { FormulaV::And(ps) } else { FormulaV::Or(ps) }),
                            None => None,
                        }
                    } else if op == "not"@ {
                        if items.len() != 2 {
                            None
                        } else {
                            match v_formula(items[1], depth + 1) {
                                Some(g) => Some(FormulaV::Not(Box::new(g))),
                                None => None,
                            }
                        }
                    } else if op == "imply"@ {
                        if items.len() != 3 {
                            None
                        } else {
                            match (v_formula(items[1], depth + 1), v_formula(items[2], depth + 1)) {
                                (Some(l), Some(r)) => Some(FormulaV::Implies(Box::new(l), Box::new(r))),
                                _ => None,
                            }
                        }
                    } else if op == "exists"@ || op == "forall"@ {
                        if items.len() != 3 {
                            None
                        } else {
                            match items[1] {
                                NodeV::List(bs) => match (v_typed_from(bs, 0, true, Seq::empty()), v_formula(items[2], depth + 1)) {
                                    (Some(b), Some(body)) => Some(
                                        if op == "exists"@ {
                                            FormulaV::Exists(b, Box::new(body))
                                        } else {
                                            FormulaV::Forall(b, Box::new(body))
                                        },
                                    ),
                                    _ => None,
                                },
                                NodeV::Atom(_) => None,
                            }
                        }
                    } else if op == "="@ {
                        if items.len() != 3 {
                            None
                        } else {
                            match (v_term(items[1]), v_term(items[2])) {
                                (Some(l), Some(r)) => Some(FormulaV::Equal(l, r)),
                                _ => None,
                            }
                        }
                    } else if unsupported_word(op) {
                        None
                    } else {
                        match v_atom(n) {
                            Some((p, ts)) => Some(FormulaV::Atom(p, ts)),
                            None => None,
                        }
                    },
                }
            },
        }
    }
}

/// The formulas of `items` from index `i` on, each inside `depth` enclosing formulas.
pub open spec fn v_formulas_from(items: Seq<NodeV>, i: int, depth: int) -> Option<Seq<FormulaV>>
    decreases MAX_LIST_DEPTH + 1 - depth, items.len() - i + 1,
{
    if depth > MAX_LIST_DEPTH + 1 || depth < 0 {
        None
    } else if !(0 <= i < items.len()) {
        Some(Seq::empty())
    } else {
        match v_formula(items[i], depth) {
            Some(f) => match v_formulas_from(items, i + 1, depth) {
                Some(rest) => Some(seq![f] + rest),
                None => None,
            },
            None => None,
        }
    }
}

/// Effect constructs outside the subset.
pub open spec fn unsupported_effect(s: Seq<char>) -> bool {
    s == "forall"@ || s == "when"@ || s == "increase"@ || s == "decrease"@ || s == "assign"@
}

/// The additions and deletions of an effect nested inside `depth` enclosing effects.
pub open spec fn v_effect(n: NodeV, depth: int) -> Option<(Seq<(Seq<char>, Seq<TermV>)>, Seq<(Seq<char>, Seq<TermV>)>)>
    decreases MAX_LIST_DEPTH + 1 - depth, 0int,
{
    if depth > MAX_LIST_DEPTH || depth < 0 {
        None
    } else {
        match n {
            NodeV::Atom(_) => None,
            NodeV::List(fields) => if fields.len() == 0 {
                None
            } else {
                match fields[0] {
                    NodeV::List(_) => None,
                    NodeV::Atom(op) => if op == "and"@ {
                        v_effects_from(fields, 1, depth + 1)
                    } else if op == "not"@ {
                        if fields.len() != 2 {
                            None
                        } else {
                            match v_atom(fields[1]) {
                                Some(a) => Some((Seq::empty(), seq![a])),
                                None => None,
                            }
                        }
                    } else if unsupported_effect(op) {
                        None
                    } else {
                        match v_atom(n) {
                            Some(a) => Some((seq![a], Seq::empty())),
                            None => None,
                        }
                    },
                }
            },
        }
    }
}

pub open spec fn v_effects_from(items: Seq<NodeV>, i: int, depth: int) -> Option<(Seq<(Seq<char>, Seq<TermV>)>, Seq<(Seq<char>, Seq<TermV>)>)>
    decreases MAX_LIST_DEPTH + 1 - depth, items.len() - i + 1,
{
    if depth > MAX_LIST_DEPTH + 1 || depth < 0 {
        None
    } else if !(0 <= i < items.len()) {
        Some((Seq::empty(), Seq::empty()))
    } else {
        match v_effect(items[i], depth) {
            Some((a, d)) => match v_effects_from(items, i + 1, depth) {
                Some((a2, d2)) => Some((a + a2, d + d2)),
                None => None,
            },
            None => None,
        }
    }
}

// ----------------------------------------------------------------------------------------------
// Actions
// ----------------------------------------------------------------------------------------------

/// Where the `:parameters`, `:precondition`, and `:effect` values stand, reading key/value
/// pairs from index `j` on; each key at most once.
pub open spec fn v_slots_from(fields: Seq<NodeV>, j: int, ps: Option<int>, pre: Option<int>, eff: Option<int>) -> Option<(Option<int>, Option<int>, Option<int>)>
    decreases fields.len() - j,
{
    if j < 0 || j + 1 >= fields.len() {
        Some((ps, pre, eff))
    } else {
        match fields[j] {
            NodeV::Atom(k) => if k == ":parameters"@ {
                if ps is Some { None } else { v_slots_from(fields, j + 2, Some(j + 1), pre, eff) }
            } else if k == ":precondition"@ {
                if pre is Some { None } else { v_slots_from(fields, j + 2, ps, Some(j + 1), eff) }
            } else if k == ":effect"@ {
                if eff is Some { None } else { v_slots_from(fields, j + 2, ps, pre, Some(j + 1)) }
            } else {
                None
            },
            NodeV::List(_) => None,
        }
    }
}

/// `(:action name :parameters (...) :precondition formula :effect effect)`; every field
/// optional.
pub open spec fn v_action(n: NodeV) -> Option<ActionV> {
    match n {
        NodeV::List(fields) => if fields.len() < 2 || fields.len() % 2 != 0 {
            None
        } else {
            match (v_name(fields[1], false), v_slots_from(fields, 2, None, None, None)) {
                (Some(name), Some((ps, pre, eff))) => {
                    let parameters = match ps {
                        Some(p) => match fields[p] {
                            NodeV::List(bs) => v_typed_from(bs, 0, true, Seq::empty()),
                            NodeV::Atom(_) => None,
                        },
                        None => Some(Seq::empty()),
                    };
                    let precondition = match pre {
                        Some(p) => v_formula(fields[p], 0),
                        None => Some(FormulaV::And(Seq::empty())),
                    };
                    let effect = match eff {
                        Some(p) => v_effect(fields[p], 0),
                        None => Some((Seq::empty(), Seq::empty())),
                    };
                    match (parameters, precondition, effect) {
                        (Some(bs), Some(f), Some((a, d))) => Some(ActionV {
                            name,
                            parameters: bs,
                            precondition: f,
                            add: a,
                            delete: d,
                        }),
                        _ => None,
                    }
                },
                _ => None,
            }
        },
        NodeV::Atom(_) => None,
    }
}

/// The actions among `items` from index `k` on.
pub open spec fn v_actions_from(items: Seq<NodeV>, k: int) -> Option<Seq<ActionV>>
    decreases items.len() - k,
{
    if !(0 <= k < items.len()) {
        Some(Seq::empty())
    } else if v_head_is(items[k], ":action"@) {
        match v_action(items[k]) {
            Some(a) => match v_actions_from(items, k + 1) {
                Some(rest) => Some(seq![a] + rest),
                None => None,
            },
            None => None,
        }
    } else {
        v_actions_from(items, k + 1)
    }
}

// ----------------------------------------------------------------------------------------------
// Sections
// ----------------------------------------------------------------------------------------------

/// The items of a section headed by `key`.
pub open spec fn v_section(n: NodeV, key: Seq<char>) -> Option<Seq<NodeV>> {
    if v_head_is(n, key) {
        match n {
            NodeV::List(items) => Some(items),
            NodeV::Atom(_) => None,
        }
    } else {
        None
    }
}

/// `(:types name ... - object ...)`: the names from index `i` on, after the pending `group`.
pub open spec fn v_types_from(items: Seq<NodeV>, i: int, group: Seq<Seq<char>>) -> Option<Seq<Seq<char>>>
    decreases items.len() - i,
{
    if !(0 <= i < items.len()) {
        Some(group)
    } else {
        match items[i] {
            NodeV::Atom(s) => if s == "-"@ {
                if group.len() == 0 || i + 1 >= items.len() {
                    None
                } else {
                    match v_name(items[i + 1], false) {
                        Some(parent) => if parent == "object"@ {
                            match v_types_from(items, i + 2, Seq::empty()) {
                                Some(rest) => Some(group + rest),
                                None => None,
                            }
                        } else {
                            None
                        },
                        None => None,
                    }
                }
            } else {
                match v_name(items[i], false) {
                    Some(n) => v_types_from(items, i + 1, group.push(n)),
                    None => None,
                }
            },
            NodeV::List(_) => None,
        }
    }
}

pub open spec fn v_types(n: NodeV) -> Option<Seq<Seq<char>>> {
    match v_section(n, ":types"@) {
        Some(items) => v_types_from(items, 1, Seq::empty()),
        None => None,
    }
}

/// Whether no two bindings share a name.
pub open spec fn distinct_names(bs: Seq<(Seq<char>, Seq<char>)>) -> bool {
    forall|a: int, b: int| 0 <= a < b < bs.len() ==> bs[a].0 != bs[b].0
}

/// `(name ?param ... - type ...)`: the name and the parameter types.
pub open spec fn v_predicate_decl(n: NodeV) -> Option<(Seq<char>, Seq<Seq<char>>)> {
    match n {
        NodeV::List(fields) => if fields.len() == 0 {
            None
        } else {
            match (v_predicate_name(fields[0]), v_typed_from(fields, 1, true, Seq::empty())) {
                (Some(p), Some(bs)) => if distinct_names(bs) {
                    Some((p, bs.map_values(|b: (Seq<char>, Seq<char>)| b.1)))
                } else {
                    None
                },
                _ => None,
            }
        },
        NodeV::Atom(_) => None,
    }
}

pub open spec fn v_predicates_from(items: Seq<NodeV>, i: int) -> Option<Seq<(Seq<char>, Seq<Seq<char>>)>>
    decreases items.len() - i,
{
    if !(0 <= i < items.len()) {
        Some(Seq::empty())
    } else {
        match v_predicate_decl(items[i]) {
            Some(p) => match v_predicates_from(items, i + 1) {
                Some(rest) => Some(seq![p] + rest),
                None => None,
            },
            None => None,
        }
    }
}

pub open spec fn v_predicates(n: NodeV) -> Option<Seq<(Seq<char>, Seq<Seq<char>>)>> {
    match v_section(n, ":predicates"@) {
        Some(items) => v_predicates_from(items, 1),
        None => None,
    }
}

/// The facts of `(:init atom ...)` from index `i` on: positive atoms over objects.
pub open spec fn v_facts_from(items: Seq<NodeV>, i: int) -> Option<Set<AtomV>>
    decreases items.len() - i,
{
    if !(0 <= i < items.len()) {
        Some(Set::empty())
    } else {
        match v_atom(items[i]) {
            Some((p, ts)) => if ground_terms(ts) {
                facts_after(set![(p, object_names(ts))], v_facts_from(items, i + 1))
            } else {
                None
            },
            None => None,
        }
    }
}

pub open spec fn v_initial(n: NodeV) -> Option<Set<AtomV>> {
    match v_section(n, ":init"@) {
        Some(items) => v_facts_from(items, 1),
        None => None,
    }
}

/// A section holding exactly one formula.
pub open spec fn v_section_formula(n: NodeV, key: Seq<char>) -> Option<FormulaV> {
    match v_section(n, key) {
        Some(items) => if items.len() == 2 { v_formula(items[1], 0) } else { None },
        None => None,
    }
}

/// The sections of `items` from index `i` on, keyed by their heads, after `acc`; keys are
/// unique, and `:action` sections are passed over when `allow_actions`.
pub open spec fn v_sections_from(items: Seq<NodeV>, i: int, allow_actions: bool, acc: Seq<(Seq<char>, int)>) -> Option<Seq<(Seq<char>, int)>>
    decreases items.len() - i,
{
    if !(0 <= i < items.len()) {
        Some(acc)
    } else {
        match items[i] {
            NodeV::List(parts) => if parts.len() == 0 {
                None
            } else {
                match parts[0] {
                    NodeV::Atom(key) => if allow_actions && key == ":action"@ {
                        v_sections_from(items, i + 1, allow_actions, acc)
                    } else if exists|k: int| 0 <= k < acc.len() && (#[trigger] acc[k]).0 == key {
                        None
                    } else {
                        v_sections_from(items, i + 1, allow_actions, acc.push((key, i)))
                    },
                    NodeV::List(_) => None,
                }
            },
            NodeV::Atom(_) => None,
        }
    }
}

/// Where the section keyed `key` stands, looking from entry `j` on.
pub open spec fn find_from(sections: Seq<(Seq<char>, int)>, key: Seq<char>, j: int) -> Option<int>
    decreases sections.len() - j,
{
    if !(0 <= j < sections.len()) {
        None
    } else if sections[j].0 == key {
        Some(sections[j].1)
    } else {
        find_from(sections, key, j + 1)
    }
}

pub open spec fn find(sections: Seq<(Seq<char>, int)>, key: Seq<char>) -> Option<int> {
    find_from(sections, key, 0)
}

/// The section keys a domain (or a problem) may have.
pub open spec fn known_key(key: Seq<char>, domain: bool) -> bool {
    if domain {
        key == ":requirements"@ || key == ":types"@ || key == ":constants"@ || key == ":predicates"@
    } else {
        key == ":domain"@ || key == ":objects"@ || key == ":init"@ || key == ":goal"@
    }
}

/// The requirements the subset supports.
pub open spec fn supported_requirement(s: Seq<char>) -> bool {
    s == ":strips"@ || s == ":typing"@ || s == ":negative-preconditions"@ || s == ":disjunctive-preconditions"@
        || s == ":equality"@ || s == ":existential-preconditions"@ || s == ":universal-preconditions"@
        || s == ":quantified-preconditions"@
}

pub open spec fn v_requirements(n: NodeV) -> bool {
    match v_section(n, ":requirements"@) {
        Some(items) => forall|i: int| 1 <= i < items.len() ==> (#[trigger] items[i] matches NodeV::Atom(s) && supported_requirement(s)),
        None => false,
    }
}

/// `(define (domain name) ...)` or `(define (problem name) ...)`: the name and the sections.
pub open spec fn v_header(items: Seq<NodeV>, domain: bool) -> Option<(Seq<char>, Seq<(Seq<char>, int)>)> {
    if items.len() < 2 {
        None
    } else {
        match items[1] {
            NodeV::List(h) => if h.len() == 2 && h[0] == NodeV::Atom(if domain { "domain"@ } else { "problem"@ }) {
                match (v_name(h[1], false), v_sections_from(items, 2, domain, Seq::empty())) {
                    (Some(n), Some(secs)) => {
                        let keys_ok = forall|k: int| 0 <= k < secs.len() ==> known_key(#[trigger] secs[k].0, domain);
                        let required = if domain {
                            find(secs, ":predicates"@) is Some
                                && (find(secs, ":requirements"@) matches Some(p) ==> v_requirements(items[p]))
                        } else {
                            find(secs, ":domain"@) is Some && find(secs, ":init"@) is Some && find(secs, ":goal"@) is Some
                        };
                        if keys_ok && required {
                            Some((n, secs))
                        } else {
                            None
                        }
                    },
                    _ => None,
                }
            } else {
                None
            },
            NodeV::Atom(_) => None,
        }
    }
}

/// The typed names of an optional `:constants` or `:objects` section.
pub open spec fn v_typed_section(items: Seq<NodeV>, sections: Seq<(Seq<char>, int)>, key: Seq<char>) -> Option<Seq<(Seq<char>, Seq<char>)>> {
    match find(sections, key) {
        Some(p) => match v_section(items[p], key) {
            Some(entries) => v_typed_from(entries, 1, false, Seq::empty()),
            None => None,
        },
        None => Some(Seq::empty()),
    }
}

/// A domain and a problem read into one task named after the problem.
pub open spec fn v_pddl(d: NodeV, p: NodeV) -> Option<TaskV> {
    match (d, p) {
        (NodeV::List(dform), NodeV::List(pform)) => {
            let no_actions = forall|k: int| 2 <= k < pform.len() ==> !v_head_is(#[trigger] pform[k], ":action"@);
            let defines = dform.len() > 0 && dform[0] == NodeV::Atom("define"@) && pform.len() > 0
                && pform[0] == NodeV::Atom("define"@);
            if !no_actions || !defines {
                None
            } else {
                match (v_header(dform, true), v_header(pform, false)) {
                    (Some((dn, dsecs)), Some((pn, psecs))) => {
                        let reference_ok = match find(psecs, ":domain"@) {
                            Some(at) => match pform[at] {
                                NodeV::List(pd) => pd.len() == 2 && pd[0] == NodeV::Atom(":domain"@) && v_name(pd[1], false) == Some(dn),
                                NodeV::Atom(_) => false,
                            },
                            None => false,
                        };
                        let types = match find(dsecs, ":types"@) {
                            Some(at) => v_types(dform[at]),
                            None => Some(Seq::empty()),
                        };
                        let predicates = match find(dsecs, ":predicates"@) {
                            Some(at) => v_predicates(dform[at]),
                            None => None,
                        };
                        let initial = match find(psecs, ":init"@) {
                            Some(at) => v_initial(pform[at]),
                            None => None,
                        };
                        let goal = match find(psecs, ":goal"@) {
                            Some(at) => v_section_formula(pform[at], ":goal"@),
                            None => None,
                        };
                        match (
                            types,
                            v_typed_section(dform, dsecs, ":constants"@),
                            v_typed_section(pform, psecs, ":objects"@),
                            predicates,
                            v_actions_from(dform, 2),
                            initial,
                            goal,
                        ) {
                            (Some(ty), Some(cs), Some(os), Some(ps), Some(acts), Some(init), Some(g)) => if reference_ok {
                                Some(TaskV {
                                    name: pn,
                                    types: ty,
                                    objects: cs + os,
                                    predicates: ps,
                                    actions: acts,
                                    initial: init,
                                    goal: g,
                                })
                            } else {
                                None
                            },
                            _ => None,
                        }
                    },
                    _ => None,
                }
            }
        },
        _ => None,
    }
}

/// The task a PDDL domain text and problem text describe, if they are read without error.
pub open spec fn pddl_task(domain: Seq<char>, problem: Seq<char>) -> Option<TaskV> {
    match (sexp_lex_from(domain, 0, 1, 1), sexp_lex_from(problem, 0, 1, 1)) {
        (Ok(dl), Ok(pl)) => match (sexp_tree(dl), sexp_tree(pl)) {
            (Some(dn), Some(pn)) => v_pddl(dn, pn),
            _ => None,
        },
        _ => None,
    }
}


/// In PDDL, `(imply A B)` is the implication whose antecedent is `A` and whose consequent is
/// `B`: when it reads as a formula, both operands read as formulas one level deeper, the
/// result is `A` implies `B`, and any formula with that reading holds exactly when `A` fails
/// or `B` holds.
pub proof fn law_pddl_imply(
    a: NodeV,
    b: NodeV,
    depth: int,
    f: crate::model::Formula,
    objs: Seq<crate::model::Binding>,
    st: Set<AtomV>,
    env: crate::logic::Env,
)
    requires
        v_formula(NodeV::List(seq![NodeV::Atom("imply"@), a, b]), depth) is Some,
    ensures
        v_formula(a, depth + 1) is Some,
        v_formula(b, depth + 1) is Some,
        v_formula(NodeV::List(seq![NodeV::Atom("imply"@), a, b]), depth) == Some(
            FormulaV::Implies(Box::new(v_formula(a, depth + 1)->0), Box::new(v_formula(b, depth + 1)->0)),
        ),
        crate::grammar::formula_v(f) == v_formula(NodeV::List(seq![NodeV::Atom("imply"@), a, b]), depth)->0 ==> (
            f matches crate::model::Formula::Implies(l, r)
                && crate::grammar::formula_v(*l) == v_formula(a, depth + 1)->0
                && crate::grammar::formula_v(*r) == v_formula(b, depth + 1)->0
                && (crate::logic::holds(objs, st, f, env) <==> (!crate::logic::holds(objs, st, *l, env)
                    || crate::logic::holds(objs, st, *r, env)))),
{
    reveal_strlit("imply");
    reveal_strlit("and");
    reveal_strlit("or");
    reveal_strlit("not");
    let items = seq![NodeV::Atom("imply"@), a, b];
    assert(items[0] == NodeV::Atom("imply"@));
    assert(items[1] == a && items[2] == b);
    assert("imply"@.len() == 5 && "and"@.len() == 3 && "or"@.len() == 2 && "not"@.len() == 3);
    assert("imply"@ != "and"@ && "imply"@ != "or"@ && "imply"@ != "not"@);
}

} // verus!
