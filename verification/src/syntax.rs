//! Lexical rules shared by the two input languages, and what they guarantee of names.
use vstd::prelude::*;

use crate::model::{Atom, Binding, Error, Formula, Task, Term};
use crate::text::{char_string, concat3, decimal, located};

verus! {

/// Whether a character is ASCII.
pub open spec fn ascii(c: char) -> bool {
    (c as u32) < 128
}

/// Whether every character is ASCII.
pub open spec fn all_ascii(s: Seq<char>) -> bool {
    forall|i: int| 0 <= i < s.len() ==> ascii(#[trigger] s[i])
}

/// Whether a character is an ASCII letter of either case.
pub open spec fn letter(c: char) -> bool {
    65 <= (c as u32) <= 90 || 97 <= (c as u32) <= 122
}

/// Whether a character is an ASCII digit.
pub open spec fn digit(c: char) -> bool {
    48 <= (c as u32) <= 57
}

/// Whether a character is a lowercase ASCII letter.
pub open spec fn lower_letter(c: char) -> bool {
    97 <= (c as u32) <= 122
}

/// Whether a character may continue an identifier.
pub open spec fn ident_char(c: char) -> bool {
    letter(c) || digit(c) || c == '_' || c == '-'
}

/// Whether a character may stand in a normalized identifier after its first letter.
pub open spec fn word_char(c: char) -> bool {
    lower_letter(c) || digit(c) || c == '_' || c == '-'
}

/// Whether a character is ASCII white space: tab, line feed, vertical tab, form feed,
/// carriage return, or space.
pub open spec fn space(c: char) -> bool {
    9 <= (c as u32) <= 13 || (c as u32) == 32
}

/// A normalized identifier: a lowercase ASCII letter followed by lowercase letters, digits,
/// underscores, or hyphens.
pub open spec fn is_word(s: Seq<char>) -> bool {
    &&& s.len() > 0
    &&& lower_letter(s[0])
    &&& forall|i: int| 0 <= i < s.len() ==> word_char(#[trigger] s[i])
}

/// The ASCII lowercase of a character; other characters are unchanged.
pub open spec fn lower(c: char) -> char {
    if 65 <= (c as u32) <= 90 {
        ((c as u32) + 32) as char
    } else {
        c
    }
}

pub open spec fn term_words(t: Term) -> bool {
    match t {
        Term::Variable(n) => is_word(n@),
        Term::Constant(n) => is_word(n@),
    }
}

pub open spec fn atom_words(a: Atom) -> bool {
    &&& is_word(a.predicate@)
    &&& forall|i: int| 0 <= i < a.terms@.len() ==> term_words(#[trigger] a.terms@[i])
}

pub open spec fn bindings_words(bs: Seq<Binding>) -> bool {
    forall|i: int| 0 <= i < bs.len() ==> is_word((#[trigger] bs[i]).name@) && is_word(bs[i].ty@)
}

/// Whether every predicate, term, and bound name in a formula is a normalized identifier.
pub open spec fn formula_words(f: Formula) -> bool
    decreases f, 0int,
{
    match f {
        Formula::Atom(a) => atom_words(a),
        Formula::Equal(l, r) => term_words(l) && term_words(r),
        Formula::Not(g) => formula_words(*g),
        Formula::And(ps) => formulas_words(ps@),
        Formula::Or(ps) => formulas_words(ps@),
        Formula::Implies(l, r) => formula_words(*l) && formula_words(*r),
        Formula::Exists(bs, g) => bindings_words(bs@) && formula_words(*g),
        Formula::Forall(bs, g) => bindings_words(bs@) && formula_words(*g),
    }
}

pub open spec fn formulas_words(ps: Seq<Formula>) -> bool
    decreases ps, 0int,
{
    if ps.len() == 0 {
        true
    } else {
        formula_words(ps[0]) && formulas_words(ps.drop_first())
    }
}

/// Whether every name a task declares or mentions is a normalized identifier.
pub open spec fn task_words(t: Task) -> bool {
    &&& is_word(t.name@)
    &&& forall|i: int| 0 <= i < t.types@.len() ==> is_word((#[trigger] t.types@[i])@)
    &&& bindings_words(t.objects@)
    &&& forall|i: int| 0 <= i < t.predicates@.len() ==> is_word((#[trigger] t.predicates@[i]).name@)
        && forall|j: int| 0 <= j < t.predicates@[i].parameters@.len() ==> is_word((#[trigger] t.predicates@[i].parameters@[j])@)
    &&& forall|i: int| 0 <= i < t.actions@.len() ==> {
        &&& is_word((#[trigger] t.actions@[i]).name@)
        &&& bindings_words(t.actions@[i].parameters@)
        &&& formula_words(t.actions@[i].precondition)
        &&& forall|j: int| 0 <= j < t.actions@[i].add@.len() ==> atom_words(#[trigger] t.actions@[i].add@[j])
        &&& forall|j: int| 0 <= j < t.actions@[i].delete@.len() ==> atom_words(#[trigger] t.actions@[i].delete@[j])
    }
    &&& state_words(t.initial@)
    &&& formula_words(t.goal)
}

/// The list form of `formulas_words`.
pub proof fn lemma_formulas_words(ps: Seq<Formula>)
    ensures
        formulas_words(ps) <==> forall|i: int| 0 <= i < ps.len() ==> formula_words(#[trigger] ps[i]),
    decreases ps.len(),
{
    if ps.len() > 0 {
        lemma_formulas_words(ps.drop_first());
        if forall|i: int| 0 <= i < ps.len() ==> formula_words(#[trigger] ps[i]) {
            assert forall|i: int| 0 <= i < ps.drop_first().len() implies formula_words(#[trigger] ps.drop_first()[i]) by {
                assert(ps.drop_first()[i] == ps[i + 1]);
            }
        }
        if formulas_words(ps) {
            assert forall|i: int| 0 <= i < ps.len() implies formula_words(#[trigger] ps[i]) by {
                if i > 0 {
                    assert(ps[i] == ps.drop_first()[i - 1]);
                }
            }
        }
    }
}

/// The ASCII lowercase of a character.
pub fn to_lower(c: char) -> (r: char)
    ensures
        r == lower(c),
{
    let b = c as u32;
    if 65 <= b && b <= 90 {
        ((b + 32) as u8) as char
    } else {
        c
    }
}

/// Whether the character is ASCII.
pub fn is_ascii(c: char) -> (r: bool)
    ensures
        r == ascii(c),
{
    (c as u32) < 128
}

/// Whether the character is an ASCII letter.
pub fn is_letter(c: char) -> (r: bool)
    ensures
        r == letter(c),
{
    let b = c as u32;
    (65 <= b && b <= 90) || (97 <= b && b <= 122)
}

/// Whether the character may continue an identifier.
pub fn is_ident_char(c: char) -> (r: bool)
    ensures
        r == ident_char(c),
{
    let b = c as u32;
    (65 <= b && b <= 90) || (97 <= b && b <= 122) || (48 <= b && b <= 57) || c == '_' || c == '-'
}

/// Whether the character is ASCII white space.
pub fn is_space(c: char) -> (r: bool)
    ensures
        r == space(c),
{
    let b = c as u32;
    (9 <= b && b <= 13) || b == 32
}

/// Lowercasing keeps identifier characters identifier characters.
pub proof fn lemma_lower(c: char)
    ensures
        letter(c) ==> lower_letter(lower(c)),
        ident_char(c) ==> word_char(lower(c)),
        ascii(c) ==> ascii(lower(c)),
{
    if 65 <= (c as u32) <= 90 {
        assert(((c as u32) + 32) as char as u32 == (c as u32) + 32);
    }
}

/// Whether `s` spells the literal `lit`.
pub fn equals_literal(s: &String, lit: &str) -> (r: bool)
    ensures
        r == (s@ == lit@),
{
    *s == String::from_str(lit)
}

/// The message for a non-ASCII character at a source position.
pub fn non_ascii_error(line: usize, column: usize, c: char) -> (e: Error)
    ensures
        e.spec_kind() == crate::model::ErrorKind::InvalidInput,
        e.spec_message() == decimal(line as nat) + ":"@ + decimal(column as nat) + ": "@ + "non-ASCII character '"@
            + seq![c] + "'"@,
{
    let shown = char_string(c);
    let message = concat3("non-ASCII character '", shown.as_str(), "'");
    Error::new(located(line, column, message.as_str()))
}


/// What a term denotes syntactically: whether it is a variable, and its name.
pub open spec fn term_view(t: Term) -> (bool, Seq<char>) {
    match t {
        Term::Variable(n) => (true, n@),
        Term::Constant(n) => (false, n@),
    }
}

/// A copy of a term.
pub fn copy_term(t: &Term) -> (r: Term)
    ensures
        term_view(r) == term_view(*t),
        term_words(r) == term_words(*t),
{
    match t {
        Term::Variable(n) => Term::Variable(crate::text::copy_string(n)),
        Term::Constant(n) => Term::Constant(crate::text::copy_string(n)),
    }
}

/// A copy of an atom.
pub fn copy_atom(a: &Atom) -> (r: Atom)
    ensures
        r.predicate@ == a.predicate@,
        r.terms@.len() == a.terms@.len(),
        forall|i: int| 0 <= i < a.terms@.len() ==> term_view(#[trigger] r.terms@[i]) == term_view(a.terms@[i]),
        atom_words(*a) ==> atom_words(r),
{
    let mut terms: Vec<Term> = Vec::new();
    let mut i: usize = 0;
    while i < a.terms.len()
        invariant
            i <= a.terms@.len(),
            terms@.len() == i,
            forall|j: int| 0 <= j < i ==> term_view(#[trigger] terms@[j]) == term_view(a.terms@[j])
                && term_words(terms@[j]) == term_words(a.terms@[j]),
        decreases a.terms.len() - i,
    {
        terms.push(copy_term(&a.terms[i]));
        i = i + 1;
    }
    Atom { predicate: crate::text::copy_string(&a.predicate), terms }
}

/// Whether every predicate and argument of every atom of a state is a normalized identifier.
pub open spec fn state_words(st: Set<(Seq<char>, Seq<Seq<char>>)>) -> bool {
    forall|x: (Seq<char>, Seq<Seq<char>>)| #[trigger] st.contains(x) ==> is_word(x.0)
        && forall|j: int| 0 <= j < x.1.len() ==> is_word(#[trigger] x.1[j])
}


/// Whether text is ASCII without uppercase letters.
pub open spec fn lowered(s: Seq<char>) -> bool {
    forall|i: int| 0 <= i < s.len() ==> ascii(#[trigger] s[i]) && !(65 <= (s[i] as u32) <= 90)
}

/// Whether a character is a word character once known to be ASCII and not uppercase.
pub proof fn lemma_lowered_ident(c: char)
    requires
        ident_char(c),
        !(65 <= (c as u32) <= 90),
    ensures
        word_char(c),
        letter(c) ==> lower_letter(c),
{
}

/// The lowercase of an ASCII character is ASCII and not uppercase.
pub proof fn lemma_lower_lowered(c: char)
    requires
        ascii(c),
    ensures
        ascii(lower(c)),
        !(65 <= (lower(c) as u32) <= 90),
{
    if 65 <= (c as u32) <= 90 {
        assert(((c as u32) + 32) as char as u32 == (c as u32) + 32);
    }
}

/// `object`, the implicit root type, is a normalized identifier.
pub proof fn lemma_object_word()
    ensures
        is_word("object"@),
{
    reveal_strlit("object");
}

} // verus!
