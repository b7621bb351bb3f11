//! The planning model: names, terms, formulas, actions, tasks, states, plans, and errors.
use vstd::prelude::*;

use crate::order::{compare_string_lists, compare_strings, lemma_lex_chars, lemma_lex_chars_trans,
    lemma_lex_names, lemma_lex_names_trans, lex_chars, lex_names};
use crate::grammar::{bindings_v, formula_v, formulas_v, lemma_formulas_v, term_v, terms_v};
use crate::syntax::{copy_atom, copy_term, term_view};
use crate::text::{copy_string, copy_strings};

verus! {

/// A typed name used for an object, an action parameter, or a quantified variable.
#[derive(Clone, Debug, PartialEq, Eq, PartialOrd, Ord, Hash)]
pub struct Binding {
    pub name: String,
    pub ty: String,
}

/// A term is either a variable name or a named object.
#[derive(Clone, Debug, PartialEq, Eq, PartialOrd, Ord, Hash)]
pub enum Term {
    /// A bare variable name; the parser removes the DSL's leading `?`.
    Variable(String),
    /// The name of a declared object.
    Constant(String),
}

/// A possibly non-ground predicate application.
#[derive(Clone, Debug, PartialEq, Eq, PartialOrd, Ord, Hash)]
pub struct Atom {
    pub predicate: String,
    pub terms: Vec<Term>,
}

/// A ground predicate application.
#[derive(Clone, Debug, PartialEq, Eq, PartialOrd, Ord, Hash)]
pub struct GroundAtom {
    pub predicate: String,
    pub arguments: Vec<String>,
}

/// The abstract value of a ground atom: its predicate and its argument names.
pub type AtomV = (Seq<char>, Seq<Seq<char>>);

impl View for GroundAtom {
    type V = AtomV;

    open spec fn view(&self) -> AtomV {
        (self.predicate@, self.arguments.deep_view())
    }
}

/// The strict total order on ground atoms that keeps states canonical.
pub open spec fn lex_atom(x: AtomV, y: AtomV) -> int {
    if lex_chars(x.0, y.0) != 0 {
        lex_chars(x.0, y.0)
    } else {
        lex_names(x.1, y.1)
    }
}

pub proof fn lemma_lex_atom(x: AtomV, y: AtomV)
    ensures
        lex_atom(x, y) == -1 || lex_atom(x, y) == 0 || lex_atom(x, y) == 1,
        (lex_atom(x, y) == 0) == (x == y),
        lex_atom(x, y) == -lex_atom(y, x),
{
    lemma_lex_chars(x.0, y.0);
    lemma_lex_names(x.1, y.1);
}

pub proof fn lemma_lex_atom_trans(x: AtomV, y: AtomV, z: AtomV)
    requires
        lex_atom(x, y) < 0,
        lex_atom(y, z) < 0,
    ensures
        lex_atom(x, z) < 0,
{
    lemma_lex_atom(x, y);
    lemma_lex_atom(y, z);
    lemma_lex_atom(x, z);
    lemma_lex_chars(x.0, y.0);
    lemma_lex_chars(y.0, z.0);
    lemma_lex_chars(x.0, z.0);
    if lex_chars(x.0, y.0) < 0 && lex_chars(y.0, z.0) < 0 {
        lemma_lex_chars_trans(x.0, y.0, z.0);
    }
    if lex_chars(x.0, y.0) == 0 && lex_chars(y.0, z.0) == 0 {
        lemma_lex_names_trans(x.1, y.1, z.1);
    }
}

/// Three-way comparison of ground atoms.
pub fn compare_atoms(a: &GroundAtom, b: &GroundAtom) -> (r: i8)
    ensures
        r as int == lex_atom(a@, b@),
{
    let c = compare_strings(&a.predicate, &b.predicate);
    if c != 0 {
        c
    } else {
        compare_string_lists(&a.arguments, &b.arguments)
    }
}

/// A copy of a ground atom.
pub fn copy_ground_atom(a: &GroundAtom) -> (r: GroundAtom)
    ensures
        r@ == a@,
{
    GroundAtom { predicate: copy_string(&a.predicate), arguments: copy_strings(&a.arguments) }
}

/// Whether `atoms` is strictly increasing in the atom order.
pub open spec fn strictly_sorted(atoms: Seq<AtomV>) -> bool {
    forall|i: int, j: int| 0 <= i < j < atoms.len() ==> lex_atom(atoms[i], atoms[j]) < 0
}

/// Two strictly sorted sequences with the same elements are equal.
pub proof fn lemma_sorted_unique(s1: Seq<AtomV>, s2: Seq<AtomV>)
    requires
        strictly_sorted(s1),
        strictly_sorted(s2),
        forall|x: AtomV| s1.contains(x) <==> s2.contains(x),
    ensures
        s1 == s2,
    decreases s1.len(),
{
    if s1.len() == 0 {
        if s2.len() > 0 {
            assert(s2.contains(s2[0]));
        }
        assert(s1 =~= s2);
    } else {
        assert(s1.contains(s1[0]));
        assert(s2.len() > 0);
        assert(s2.contains(s2[0]));
        let j = choose|j: int| 0 <= j < s2.len() && s2[j] == s1[0];
        let i = choose|i: int| 0 <= i < s1.len() && s1[i] == s2[0];
        lemma_lex_atom(s1[0], s2[0]);
        if j > 0 {
            assert(lex_atom(s2[0], s2[j]) < 0);
            if i > 0 {
                assert(lex_atom(s1[0], s1[i]) < 0);
            }
            assert(false);
        }
        let t1 = s1.drop_first();
        let t2 = s2.drop_first();
        assert forall|x: AtomV| t1.contains(x) <==> t2.contains(x) by {
            if t1.contains(x) {
                let k = choose|k: int| 0 <= k < t1.len() && t1[k] == x;
                assert(s1[k + 1] == x);
                assert(lex_atom(s1[0], x) < 0);
                lemma_lex_atom(s1[0], x);
                assert(s2.contains(x));
                let m = choose|m: int| 0 <= m < s2.len() && s2[m] == x;
                assert(m != 0);
                assert(t2[m - 1] == x);
            }
            if t2.contains(x) {
                let k = choose|k: int| 0 <= k < t2.len() && t2[k] == x;
                assert(s2[k + 1] == x);
                assert(lex_atom(s2[0], x) < 0);
                lemma_lex_atom(s2[0], x);
                assert(s1.contains(x));
                let m = choose|m: int| 0 <= m < s1.len() && s1[m] == x;
                assert(m != 0);
                assert(t1[m - 1] == x);
            }
        }
        lemma_sorted_unique(t1, t2);
        assert(s1 =~= seq![s1[0]] + t1);
        assert(s2 =~= seq![s2[0]] + t2);
    }
}

/// The set of ground atoms true in a state; all other atoms are false (CWA).
///
/// The atoms are kept strictly increasing, so equal sets have equal representations.
#[derive(Debug, PartialEq, Eq, Hash)]
pub struct State {
    atoms: Vec<GroundAtom>,
}

impl Clone for State {
    fn clone(&self) -> (r: State)
        ensures
            r@ == self@,
    {
        self.copy()
    }
}

impl View for State {
    type V = Set<AtomV>;

    closed spec fn view(&self) -> Set<AtomV> {
        Set::new(|x: AtomV| exists|i: int| 0 <= i < self.atoms@.len() && #[trigger] self.atoms@[i]@ == x)
    }
}

impl State {
    #[verifier::type_invariant]
    closed spec fn sorted(&self) -> bool {
        forall|i: int, j: int|
            0 <= i < j < self.atoms@.len() ==> lex_atom(#[trigger] self.atoms@[i]@, #[trigger] self.atoms@[j]@) < 0
    }

    proof fn lemma_sorted_elements(&self)
        requires
            self.sorted(),
        ensures
            strictly_sorted(self.elements()),
    {
        assert forall|i: int, j: int| 0 <= i < j < self.elements().len() implies
            lex_atom(self.elements()[i], self.elements()[j]) < 0 by {
            assert(self.elements()[i] == self.atoms@[i]@);
            assert(self.elements()[j] == self.atoms@[j]@);
        }
    }

    /// The atoms of the state in increasing order.
    pub closed spec fn elements(&self) -> Seq<AtomV> {
        self.atoms@.map_values(|a: GroundAtom| a@)
    }

    /// The elements are exactly the state's atoms.
    pub proof fn lemma_elements(&self)
        ensures
            forall|x: AtomV| self@.contains(x) <==> self.elements().contains(x),
    {
        assert forall|x: AtomV| self@.contains(x) <==> self.elements().contains(x) by {
            if self@.contains(x) {
                let i = choose|i: int| 0 <= i < self.atoms@.len() && #[trigger] self.atoms@[i]@ == x;
                assert(self.elements()[i] == x);
            }
            if self.elements().contains(x) {
                let i = choose|i: int| 0 <= i < self.elements().len() && self.elements()[i] == x;
                assert(self.atoms@[i]@ == x);
            }
        }
    }

    /// The empty state.
    pub fn new() -> (s: State)
        ensures
            s@ == Set::<AtomV>::empty(),
    {
        let s = State { atoms: Vec::new() };
        assert(s@ =~= Set::<AtomV>::empty());
        s
    }

    /// The state holding exactly the given atoms.
    pub fn from_atoms(atoms: Vec<GroundAtom>) -> (s: State)
        ensures
            forall|x: AtomV| s@.contains(x) <==> exists|i: int| 0 <= i < atoms@.len() && #[trigger] atoms@[i]@ == x,
    {
        let mut s = State::new();
        let mut i: usize = 0;
        while i < atoms.len()
            invariant
                i <= atoms.len(),
                forall|x: AtomV| s@.contains(x) <==> exists|k: int| 0 <= k < i && #[trigger] atoms@[k]@ == x,
            decreases atoms.len() - i,
        {
            let a = copy_ground_atom(&atoms[i]);
            s.insert(a);
            assert forall|x: AtomV| s@.contains(x) <==> exists|k: int| 0 <= k < i + 1 && #[trigger] atoms@[k]@ == x by {
                if x == atoms@[i as int]@ {
                    assert(atoms@[i as int]@ == x);
                }
            }
            i = i + 1;
        }
        s
    }

    /// The index of the first atom not below `a`.
    fn position(&self, a: &GroundAtom) -> (p: usize)
        ensures
            p <= self.atoms@.len(),
            forall|i: int| 0 <= i < p ==> lex_atom(#[trigger] self.atoms@[i]@, a@) < 0,
            p < self.atoms@.len() ==> lex_atom(a@, self.atoms@[p as int]@) <= 0,
    {
        let mut p: usize = 0;
        while p < self.atoms.len()
            invariant
                p <= self.atoms@.len(),
                forall|i: int| 0 <= i < p ==> lex_atom(#[trigger] self.atoms@[i]@, a@) < 0,
            decreases self.atoms.len() - p,
        {
            let c = compare_atoms(a, &self.atoms[p]);
            if c <= 0 {
                return p;
            }
            proof {
                lemma_lex_atom(a@, self.atoms@[p as int]@);
            }
            p = p + 1;
        }
        p
    }

    /// Whether `a` is true in this state.
    pub fn contains(&self, a: &GroundAtom) -> (r: bool)
        ensures
            r == self@.contains(a@),
    {
        proof {
            use_type_invariant(self);
        }
        let p = self.position(a);
        if p < self.atoms.len() && compare_atoms(a, &self.atoms[p]) == 0 {
            proof {
                lemma_lex_atom(a@, self.atoms@[p as int]@);
                assert(self.atoms@[p as int]@ == a@);
            }
            true
        } else {
            proof {
                if self@.contains(a@) {
                    let i = choose|i: int| 0 <= i < self.atoms@.len() && #[trigger] self.atoms@[i]@ == a@;
                    lemma_lex_atom(a@, a@);
                    if i > p {
                        assert(lex_atom(self.atoms@[p as int]@, self.atoms@[i]@) < 0);
                        lemma_lex_atom(a@, self.atoms@[p as int]@);
                        lemma_lex_atom(self.atoms@[p as int]@, a@);
                    }
                }
            }
            false
        }
    }

    /// Makes `a` true.
    pub fn insert(&mut self, a: GroundAtom)
        ensures
            final(self)@ == old(self)@.insert(a@),
    {
        proof {
            use_type_invariant(&*self);
        }
        let p = self.position(&a);
        if p < self.atoms.len() && compare_atoms(&a, &self.atoms[p]) == 0 {
            proof {
                lemma_lex_atom(a@, self.atoms@[p as int]@);
                assert(self@ =~= self@.insert(a@));
            }
            return;
        }
        let ghost old_atoms = self.atoms@;
        let ghost av = a@;
        let mut atoms: Vec<GroundAtom> = Vec::new();
        std::mem::swap(&mut atoms, &mut self.atoms);
        atoms.insert(p, a);
        proof {
            assert(atoms@ == old_atoms.insert(p as int, atoms@[p as int]));
            assert(atoms@[p as int]@ == av);
            assert forall|i: int, j: int| 0 <= i < j < atoms@.len() implies
                lex_atom(#[trigger] atoms@[i]@, #[trigger] atoms@[j]@) < 0 by {
                let m = atoms@.map_values(|g: GroundAtom| g@);
                assert(m[i] == atoms@[i]@ && m[j] == atoms@[j]@);
                if p < old_atoms.len() {
                    lemma_lex_atom(av, old_atoms[p as int]@);
                }
                if j < p {
                    assert(m[i] == old_atoms[i]@ && m[j] == old_atoms[j]@);
                } else if j == p {
                    assert(m[i] == old_atoms[i]@);
                } else if i < p {
                    assert(m[i] == old_atoms[i]@ && m[j] == old_atoms[j - 1]@);
                    assert(lex_atom(av, old_atoms[p as int]@) < 0);
                    if j - 1 > p {
                        assert(lex_atom(old_atoms[p as int]@, old_atoms[j - 1]@) < 0);
                        lemma_lex_atom_trans(av, old_atoms[p as int]@, old_atoms[j - 1]@);
                    }
                    lemma_lex_atom_trans(m[i], av, m[j]);
                } else if i == p {
                    assert(m[j] == old_atoms[j - 1]@);
                    if j - 1 > p {
                        assert(lex_atom(old_atoms[p as int]@, old_atoms[j - 1]@) < 0);
                        lemma_lex_atom_trans(av, old_atoms[p as int]@, old_atoms[j - 1]@);
                    }
                } else {
                    assert(m[i] == old_atoms[i - 1]@ && m[j] == old_atoms[j - 1]@);
                }
            }
        }
        self.atoms = atoms;
        proof {
            assert forall|x: AtomV| self@.contains(x) == old(self)@.insert(av).contains(x) by {
                if x == av {
                    assert(self.atoms@[p as int]@ == x);
                }
                if old(self)@.contains(x) && x != av {
                    let i = choose|i: int| 0 <= i < old_atoms.len() && #[trigger] old_atoms[i]@ == x;
                    if i < p {
                        assert(self.atoms@[i]@ == x);
                    } else {
                        assert(self.atoms@[i + 1]@ == x);
                    }
                }
                if self@.contains(x) && x != av {
                    let i = choose|i: int| 0 <= i < self.atoms@.len() && #[trigger] self.atoms@[i]@ == x;
                    if i < p {
                        assert(old_atoms[i]@ == x);
                    } else {
                        assert(old_atoms[i - 1]@ == x);
                    }
                }
            }
            assert(self@ =~= old(self)@.insert(av));
        }
    }

    /// Makes `a` false.
    pub fn remove(&mut self, a: &GroundAtom)
        ensures
            final(self)@ == old(self)@.remove(a@),
    {
        proof {
            use_type_invariant(&*self);
        }
        let p = self.position(a);
        if p < self.atoms.len() && compare_atoms(a, &self.atoms[p]) == 0 {
            let ghost old_atoms = self.atoms@;
            let mut atoms: Vec<GroundAtom> = Vec::new();
        std::mem::swap(&mut atoms, &mut self.atoms);
            let _ = atoms.remove(p);
            proof {
                lemma_lex_atom(a@, old_atoms[p as int]@);
                assert(atoms@ == old_atoms.remove(p as int));
                assert forall|i: int, j: int| 0 <= i < j < atoms@.len() implies
                    lex_atom(#[trigger] atoms@[i]@, #[trigger] atoms@[j]@) < 0 by {
                    let m = atoms@.map_values(|g: GroundAtom| g@);
                    assert(m[i] == atoms@[i]@ && m[j] == atoms@[j]@);
                    if j < p {
                        assert(m[i] == old_atoms[i]@ && m[j] == old_atoms[j]@);
                    } else if i < p {
                        assert(m[i] == old_atoms[i]@ && m[j] == old_atoms[j + 1]@);
                    } else {
                        assert(m[i] == old_atoms[i + 1]@ && m[j] == old_atoms[j + 1]@);
                    }
                }
            }
            self.atoms = atoms;
            proof {
                assert forall|x: AtomV| self@.contains(x) == old(self)@.remove(a@).contains(x) by {
                    if old(self)@.contains(x) && x != a@ {
                        let i = choose|i: int| 0 <= i < old_atoms.len() && #[trigger] old_atoms[i]@ == x;
                        if i < p {
                            assert(self.atoms@[i]@ == x);
                        } else {
                            assert(i != p);
                            assert(self.atoms@[i - 1]@ == x);
                        }
                    }
                    if self@.contains(x) {
                        let i = choose|i: int| 0 <= i < self.atoms@.len() && #[trigger] self.atoms@[i]@ == x;
                        if i < p {
                            assert(old_atoms[i]@ == x);
                            assert(lex_atom(old_atoms[i]@, old_atoms[p as int]@) < 0);
                            lemma_lex_atom(old_atoms[i]@, old_atoms[p as int]@);
                        } else {
                            assert(old_atoms[i + 1]@ == x);
                            assert(lex_atom(old_atoms[p as int]@, old_atoms[i + 1]@) < 0);
                            lemma_lex_atom(old_atoms[p as int]@, old_atoms[i + 1]@);
                        }
                    }
                }
                assert(self@ =~= old(self)@.remove(a@));
            }
        } else {
            proof {
                if self@.contains(a@) {
                    let i = choose|i: int| 0 <= i < self.atoms@.len() && #[trigger] self.atoms@[i]@ == a@;
                    lemma_lex_atom(a@, a@);
                    if i > p {
                        assert(lex_atom(self.atoms@[p as int]@, self.atoms@[i]@) < 0);
                        lemma_lex_atom(a@, self.atoms@[p as int]@);
                        lemma_lex_atom(self.atoms@[p as int]@, a@);
                    }
                }
                assert(self@ =~= old(self)@.remove(a@));
            }
        }
    }

    /// Whether two states hold the same atoms.
    pub fn same(&self, other: &State) -> (r: bool)
        ensures
            r == (self@ == other@),
    {
        proof {
            use_type_invariant(self);
            use_type_invariant(other);
            self.lemma_elements();
            other.lemma_elements();
            self.lemma_sorted_elements();
            other.lemma_sorted_elements();
        }
        if self.atoms.len() != other.atoms.len() {
            proof {
                if self@ == other@ {
                    lemma_sorted_unique(self.elements(), other.elements());
                }
            }
            return false;
        }
        let mut i: usize = 0;
        while i < self.atoms.len()
            invariant
                i <= self.atoms@.len(),
                self.atoms@.len() == other.atoms@.len(),
                forall|k: int| 0 <= k < i ==> #[trigger] self.atoms@[k]@ == other.atoms@[k]@,
                strictly_sorted(self.elements()),
                strictly_sorted(other.elements()),
                forall|x: AtomV| self@.contains(x) <==> self.elements().contains(x),
                forall|x: AtomV| other@.contains(x) <==> other.elements().contains(x),
            decreases self.atoms.len() - i,
        {
            if compare_atoms(&self.atoms[i], &other.atoms[i]) != 0 {
                proof {
                    lemma_lex_atom(self.atoms@[i as int]@, other.atoms@[i as int]@);
                    if self@ == other@ {
                        lemma_sorted_unique(self.elements(), other.elements());
                        assert(self.elements()[i as int] == other.elements()[i as int]);
                    }
                }
                return false;
            }
            proof {
                lemma_lex_atom(self.atoms@[i as int]@, other.atoms@[i as int]@);
            }
            i = i + 1;
        }
        proof {
            assert(self.elements() =~= other.elements());
            assert(self@ =~= other@);
        }
        true
    }

    /// A copy of the state.
    pub fn copy(&self) -> (r: State)
        ensures
            r@ == self@,
    {
        proof {
            use_type_invariant(self);
        }
        let mut atoms: Vec<GroundAtom> = Vec::new();
        let mut i: usize = 0;
        while i < self.atoms.len()
            invariant
                i <= self.atoms@.len(),
                atoms@.len() == i,
                forall|k: int| 0 <= k < i ==> #[trigger] atoms@[k]@ == self.atoms@[k]@,
            decreases self.atoms.len() - i,
        {
            atoms.push(copy_ground_atom(&self.atoms[i]));
            i = i + 1;
        }
        let r = State { atoms };
        proof {
            assert forall|x: AtomV| r@.contains(x) == self@.contains(x) by {
                if r@.contains(x) {
                    let i = choose|i: int| 0 <= i < r.atoms@.len() && #[trigger] r.atoms@[i]@ == x;
                    assert(self.atoms@[i]@ == x);
                }
                if self@.contains(x) {
                    let i = choose|i: int| 0 <= i < self.atoms@.len() && #[trigger] self.atoms@[i]@ == x;
                    assert(r.atoms@[i]@ == x);
                }
            }
            assert(r@ =~= self@);
        }
        r
    }

    /// Whether the state holds no atom.
    pub fn is_empty(&self) -> (r: bool)
        ensures
            r == (self@ == Set::<AtomV>::empty()),
    {
        proof {
            if self.atoms@.len() > 0 {
                assert(self@.contains(self.atoms@[0]@));
            } else {
                assert(self@ =~= Set::<AtomV>::empty());
            }
        }
        self.atoms.len() == 0
    }

    /// A state holds finitely many atoms.
    pub proof fn lemma_finite(&self)
        ensures
            self@.finite(),
    {
        self.lemma_elements();
        assert(self@ =~= self.elements().to_set());
        vstd::seq_lib::seq_to_set_is_finite(self.elements());
    }

    /// The number of atoms in the state.
    pub fn len(&self) -> (n: usize)
        ensures
            n == self.elements().len(),
            self@.finite(),
            n == self@.len(),
    {
        proof {
            use_type_invariant(self);
            self.lemma_elements();
            self.lemma_sorted_elements();
            let e = self.elements();
            assert(e.no_duplicates()) by {
                assert forall|i: int, j: int| 0 <= i < e.len() && 0 <= j < e.len() && i != j implies e[i] != e[j] by {
                    if i < j {
                        lemma_lex_atom(e[i], e[j]);
                    } else {
                        lemma_lex_atom(e[j], e[i]);
                    }
                }
            }
            assert(self@ =~= e.to_set());
            vstd::seq_lib::seq_to_set_is_finite(e);
            e.unique_seq_to_set();
        }
        self.atoms.len()
    }

    /// Iterates over the atoms of the state in increasing order.
    pub fn iter(&self) -> (r: std::slice::Iter<'_, GroundAtom>)
        ensures
            vstd::std_specs::iter::IteratorSpec::remaining(&r).map_values(|g: &GroundAtom| (*g)@) == self.elements(),
    {
        let r = self.atoms.as_slice().iter();
        proof {
            broadcast use vstd::std_specs::slice::axiom_spec_slice_iter;
            assert(vstd::std_specs::iter::IteratorSpec::remaining(&r).map_values(|g: &GroundAtom| (*g)@) =~= self.elements());
        }
        r
    }

    /// The atoms of the state in increasing order.
    pub fn atoms(&self) -> (r: &[GroundAtom])
        ensures
            r@.map_values(|g: GroundAtom| g@) == self.elements(),
            self.elements().no_duplicates(),
    {
        proof {
            use_type_invariant(self);
            self.lemma_sorted_elements();
            let e = self.elements();
            assert forall|i: int, j: int| 0 <= i < e.len() && 0 <= j < e.len() && i != j implies e[i] != e[j] by {
                if i < j {
                    lemma_lex_atom(e[i], e[j]);
                } else {
                    lemma_lex_atom(e[j], e[i]);
                }
            }
        }
        self.atoms.as_slice()
    }
}


/// A predicate declaration. `parameters` contains argument types, not names.
#[derive(Clone, Debug, PartialEq, Eq)]
pub struct Predicate {
    pub name: String,
    pub parameters: Vec<String>,
}

/// A classical deterministic action schema.
#[derive(Clone, Debug, PartialEq, Eq)]
pub struct Action {
    pub name: String,
    pub parameters: Vec<Binding>,
    pub precondition: Formula,
    pub add: Vec<Atom>,
    pub delete: Vec<Atom>,
}

/// A first-order formula interpreted over the finite object domain.
#[derive(Debug, PartialEq, Eq)]
pub enum Formula {
    Atom(Atom),
    Equal(Term, Term),
    Not(Box<Formula>),
    And(Vec<Formula>),
    Or(Vec<Formula>),
    Implies(Box<Formula>, Box<Formula>),
    Exists(Vec<Binding>, Box<Formula>),
    Forall(Vec<Binding>, Box<Formula>),
}

impl Clone for Formula {
    fn clone(&self) -> (r: Formula)
        ensures
            formula_v(r) == formula_v(*self),
        decreases self,
    {
        match self {
            Formula::Atom(a) => {
                let c = copy_atom(a);
                proof {
                    lemma_terms_copied(c.terms@, a.terms@);
                }
                Formula::Atom(c)
            },
            Formula::Equal(l, r) => {
                let cl = copy_term(l);
                let cr = copy_term(r);
                proof {
                    lemma_term_copied(cl, *l);
                    lemma_term_copied(cr, *r);
                }
                Formula::Equal(cl, cr)
            },
            Formula::Not(g) => Formula::Not(Box::new((**g).clone())),
            Formula::And(parts) => Formula::And(clone_formulas(parts)),
            Formula::Or(parts) => Formula::Or(clone_formulas(parts)),
            Formula::Implies(l, r) => Formula::Implies(Box::new((**l).clone()), Box::new((**r).clone())),
            Formula::Exists(bs, g) => Formula::Exists(copy_bindings(bs), Box::new((**g).clone())),
            Formula::Forall(bs, g) => Formula::Forall(copy_bindings(bs), Box::new((**g).clone())),
        }
    }
}

proof fn lemma_term_copied(c: Term, t: Term)
    requires
        term_view(c) == term_view(t),
    ensures
        term_v(c) == term_v(t),
{
}

proof fn lemma_terms_copied(c: Seq<Term>, t: Seq<Term>)
    requires
        c.len() == t.len(),
        forall|i: int| 0 <= i < t.len() ==> term_view(#[trigger] c[i]) == term_view(t[i]),
    ensures
        terms_v(c) == terms_v(t),
{
    assert forall|i: int| 0 <= i < t.len() implies terms_v(c)[i] == terms_v(t)[i] by {
        lemma_term_copied(c[i], t[i]);
    }
    assert(terms_v(c) =~= terms_v(t));
}

/// A copy of a list of typed names.
fn copy_bindings(bs: &Vec<Binding>) -> (r: Vec<Binding>)
    ensures
        bindings_v(r@) == bindings_v(bs@),
{
    let mut r: Vec<Binding> = Vec::new();
    let mut i: usize = 0;
    while i < bs.len()
        invariant
            i <= bs@.len(),
            bindings_v(r@) == bindings_v(bs@.take(i as int)),
        decreases bs.len() - i,
    {
        let b = Binding { name: copy_string(&bs[i].name), ty: copy_string(&bs[i].ty) };
        let ghost before = r@;
        r.push(b);
        proof {
            assert(bs@.take(i + 1) =~= bs@.take(i as int).push(bs@[i as int]));
            assert(bindings_v(r@) =~= bindings_v(before).push((bs@[i as int].name@, bs@[i as int].ty@)));
            assert(bindings_v(bs@.take(i + 1)) =~= bindings_v(bs@.take(i as int)).push((bs@[i as int].name@, bs@[i as int].ty@)));
        }
        i = i + 1;
    }
    proof {
        assert(bs@.take(i as int) =~= bs@);
    }
    r
}

/// A copy of a list of formulas.
fn clone_formulas(parts: &Vec<Formula>) -> (r: Vec<Formula>)
    ensures
        formulas_v(r@) == formulas_v(parts@),
    decreases parts,
{
    let mut r: Vec<Formula> = Vec::new();
    let mut i: usize = 0;
    while i < parts.len()
        invariant
            i <= parts.len(),
            r@.len() == i,
            forall|j: int| 0 <= j < i ==> formula_v(#[trigger] r@[j]) == formula_v(parts@[j]),
        decreases parts.len() - i,
    {
        proof {
            vstd::std_specs::vec::axiom_vec_index_decreases(*parts, i as int);
        }
        r.push(parts[i].clone());
        i = i + 1;
    }
    proof {
        lemma_formulas_v(r@);
        lemma_formulas_v(parts@);
        assert(formulas_v(r@) =~= formulas_v(parts@));
    }
    r
}

/// A complete finite planning task.
#[derive(Clone, Debug, PartialEq, Eq)]
pub struct Task {
    pub name: String,
    pub types: Vec<String>,
    pub objects: Vec<Binding>,
    pub predicates: Vec<Predicate>,
    pub actions: Vec<Action>,
    pub initial: State,
    pub goal: Formula,
}

/// The category of a planning error.
#[derive(Clone, Copy, Debug, PartialEq, Eq, Structural)]
pub enum ErrorKind {
    InvalidInput,
    GroundingLimit,
}

/// An error raised while validating, evaluating, grounding, or executing a task.
#[derive(Clone, Debug, PartialEq, Eq)]
pub struct Error {
    pub message: String,
    kind: ErrorKind,
}

impl Error {
    /// The category of the error.
    pub closed spec fn spec_kind(&self) -> ErrorKind {
        self.kind
    }

    /// The text of the error.
    pub closed spec fn spec_message(&self) -> Seq<char> {
        self.message@
    }

    /// Creates an invalid-input error with a human-readable explanation.
    pub fn new(message: String) -> (e: Error)
        ensures
            e.spec_message() == message@,
            e.spec_kind() == ErrorKind::InvalidInput,
    {
        Error { message, kind: ErrorKind::InvalidInput }
    }

    /// Returns the category used by callers to distinguish bounded failures.
    pub fn kind(&self) -> (k: ErrorKind)
        ensures
            k == self.spec_kind(),
    {
        self.kind
    }

    /// Creates an error reporting that the grounding limit was exceeded.
    pub(crate) fn grounding_limit(message: String) -> (e: Error)
        ensures
            e.spec_message() == message@,
            e.spec_kind() == ErrorKind::GroundingLimit,
    {
        Error { message, kind: ErrorKind::GroundingLimit }
    }

    /// The error's message, as displayed to users.
    pub fn to_string(&self) -> (s: String)
        ensures
            s@ == self.spec_message(),
    {
        self.message.clone()
    }
}

/// A fully instantiated action.
#[derive(Clone, Debug, PartialEq, Eq, PartialOrd, Ord, Hash)]
pub struct GroundAction {
    pub name: String,
    pub arguments: Vec<String>,
}

/// Names joined by `", "`.
pub open spec fn join_names(names: Seq<Seq<char>>) -> Seq<char>
    decreases names.len(),
{
    if names.len() == 0 {
        Seq::empty()
    } else if names.len() == 1 {
        names[0]
    } else {
        join_names(names.drop_last()) + ", "@ + names.last()
    }
}

/// The rendering of a ground action, as `name(arg1, arg2)`.
pub open spec fn show_ground_action(g: GroundAction) -> Seq<char> {
    g.name@ + "("@ + join_names(g.arguments.deep_view()) + ")"@
}

impl GroundAction {
    /// Renders the action as `name(arg1, arg2)`.
    pub fn to_string(&self) -> (s: String)
        ensures
            s@ == show_ground_action(*self),
    {
        let mut s = self.name.clone();
        s.append("(");
        let ghost start = s@;
        let ghost names = self.arguments.deep_view();
        let mut i: usize = 0;
        while i < self.arguments.len()
            invariant
                i <= self.arguments@.len(),
                names == self.arguments.deep_view(),
                s@ == start + join_names(names.take(i as int)),
            decreases self.arguments.len() - i,
        {
            proof {
                assert(names.take(i + 1).drop_last() =~= names.take(i as int));
                assert(names.take(i + 1).last() == self.arguments@[i as int]@);
            }
            if i > 0 {
                s.append(", ");
            } else {
                proof {
                    assert(join_names(names.take(0)) =~= Seq::<char>::empty());
                }
            }
            s.append(self.arguments[i].as_str());
            proof {
                if i == 0 {
                    assert(join_names(names.take(1)) == names.take(1)[0]);
                }
                assert(s@ =~= start + join_names(names.take(i + 1)));
            }
            i = i + 1;
        }
        s.append(")");
        proof {
            assert(names.take(i as int) =~= names);
        }
        s
    }
}

/// Limits on the number of states stored and ground actions generated.
#[derive(Clone, Copy, Debug, PartialEq, Eq)]
pub struct SearchLimits {
    pub max_states: usize,
    pub max_ground_actions: usize,
}

impl Default for SearchLimits {
    fn default() -> (limits: Self)
        ensures
            limits.max_states == 100_000,
            limits.max_ground_actions == 100_000,
    {
        SearchLimits { max_states: 100_000, max_ground_actions: 100_000 }
    }
}

/// A shortest plan and the state reached after executing it.
#[derive(Clone, Debug, PartialEq, Eq)]
pub struct Plan {
    pub steps: Vec<GroundAction>,
    pub final_state: State,
    pub explored: usize,
}

/// The situation-calculus term reached by executing `steps` from `S0`.
pub open spec fn situation_term(steps: Seq<GroundAction>) -> Seq<char>
    decreases steps.len(),
{
    if steps.len() == 0 {
        "S0"@
    } else {
        "do("@ + show_ground_action(steps.last()) + ", "@ + situation_term(steps.drop_last()) + ")"@
    }
}

impl Plan {
    /// Renders the situation-calculus witness for this action sequence.
    pub fn situation(&self) -> (s: String)
        ensures
            s@ == situation_term(self.steps@),
    {
        let mut situation = String::from_str("S0");
        let mut i: usize = 0;
        while i < self.steps.len()
            invariant
                i <= self.steps@.len(),
                situation@ == situation_term(self.steps@.take(i as int)),
            decreases self.steps.len() - i,
        {
            let step = self.steps[i].to_string();
            let mut next = String::from_str("do(");
            next.append(step.as_str());
            next.append(", ");
            next.append(situation.as_str());
            next.append(")");
            proof {
                assert(self.steps@.take(i + 1).drop_last() =~= self.steps@.take(i as int));
                assert(self.steps@.take(i + 1).last() == self.steps@[i as int]);
            }
            situation = next;
            i = i + 1;
        }
        proof {
            assert(self.steps@.take(i as int) =~= self.steps@);
        }
        situation
    }
}

/// The result of an exhaustive bounded search.
#[derive(Clone, Debug, PartialEq, Eq)]
pub enum SearchOutcome {
    Solved(Plan),
    Unsolvable { explored: usize },
    LimitReached { explored: usize },
}


/// The situation term of a plan starts at `S0`, and each step wraps the term of the steps
/// before it: the most recent action is the outermost `do`, the first one sits next to `S0`.
pub proof fn law_situation_wraps_the_last_step(steps: Seq<GroundAction>, a: GroundAction)
    ensures
        situation_term(Seq::empty()) == "S0"@,
        situation_term(steps.push(a)) == "do("@ + show_ground_action(a) + ", "@ + situation_term(steps) + ")"@,
{
    assert(steps.push(a).drop_last() =~= steps);
    assert(steps.push(a).last() == a);
}

} // verus!
