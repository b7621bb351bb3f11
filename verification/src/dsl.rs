//! Lexer and parser for the brace-based infix FOLPlan language.
use vstd::prelude::*;

use crate::grammar::{
    and_parts, binding_names, binding_v, bindings_after, bindings_v, combine, decls_after, formula_v, g_application,
    g_bindings, g_names, g_object_decls, g_objects, g_predicate_decls, g_predicates, g_types, names_after, names_tail,
    predicate_v, typed, action_v, g_sections, g_task, no_sections, task_v, SectionsV, g_action, g_fields, atom_v, atoms_v, effects_after, effects_all, effects_of, facts_after, facts_all, facts_of, g_formula, g_infix, g_prefix, g_quantified, g_tail,
    g_terms, name_at, or_parts, sym, term_for, term_v, tok, word_is, FormulaV, TermV, g_sections_end, g_task_failure,
    f_application, f_bindings, f_formula, f_prefix, f_quantified, f_tail, f_terms, f_names, f_names_tail, f_types,
    f_objects, f_object_decls, f_predicates, f_predicate_decls, f_action, f_fields, facts_failure, facts_all_failure,
    effects_failure, effects_all_failure,
};
use crate::model::{Action, Atom, Binding, Error, ErrorKind, Formula, GroundAtom, Predicate, State, Task, Term};
use crate::syntax::{
    all_ascii, ascii, equals_literal, ident_char, is_ascii, is_ident_char, is_letter, is_space, is_word, lemma_lower,
    letter, lower, lower_letter, non_ascii_error, space, to_lower, word_char,
};
use crate::text::{char_string, concat3, decimal, located, str_chars, string_from_chars};

verus! {

/// Punctuation and logical operators.
#[derive(Clone, Copy, Debug, PartialEq, Eq, Structural)]
pub enum Symbol {
    LBrace,
    RBrace,
    LParen,
    RParen,
    Comma,
    Colon,
    Semi,
    Dot,
    And,
    Or,
    Not,
    Implies,
    Equal,
    NotEqual,
}

/// What a token is: a normalized name, a symbol, or the end of input.
#[derive(Clone, Debug, PartialEq, Eq)]
pub enum TokenKind {
    Name(String),
    Symbol(Symbol),
    End,
}

/// A token and the line and column where it starts, both counted from 1.
#[derive(Clone, Debug, PartialEq, Eq)]
pub struct Token {
    pub kind: TokenKind,
    pub line: usize,
    pub column: usize,
}

/// A token stream: names are normalized identifiers, and the stream closes with `End`.
pub open spec fn tokens_ok(ts: Seq<Token>) -> bool {
    &&& ts.len() > 0
    &&& ts.last().kind is End
    &&& forall|i: int| 0 <= i < ts.len() ==> ((#[trigger] ts[i]).kind matches TokenKind::Name(n) ==> is_word(n@))
}

/// Whether every name token is a normalized identifier.
pub open spec fn names_ok(ts: Seq<Token>) -> bool {
    forall|i: int| 0 <= i < ts.len() ==> ((#[trigger] ts[i]).kind matches TokenKind::Name(n) ==> is_word(n@))
}

// ----------------------------------------------------------------------------------------------
// Lexical rules
// ----------------------------------------------------------------------------------------------

/// What a token carries: a normalized word, a symbol, or the end of input.
pub enum Lexeme {
    Word(Seq<char>),
    Mark(Symbol),
    Stop,
}

/// A token as a lexeme and its line and column.
pub open spec fn token_view(t: Token) -> (Lexeme, nat, nat) {
    (
        match t.kind {
            TokenKind::Name(n) => Lexeme::Word(n@),
            TokenKind::Symbol(s) => Lexeme::Mark(s),
            TokenKind::End => Lexeme::Stop,
        },
        t.line as nat,
        t.column as nat,
    )
}

pub open spec fn tokens_view(ts: Seq<Token>) -> Seq<(Lexeme, nat, nat)> {
    ts.map_values(|t: Token| token_view(t))
}

/// `line:column: text`.
pub open spec fn message_at(line: nat, column: nat, text: Seq<char>) -> Seq<char> {
    decimal(line) + ":"@ + decimal(column) + ": "@ + text
}

/// A failure's message, located at its token.
pub open spec fn failure_message(ls: Seq<(Lexeme, nat, nat)>, f: (int, Seq<char>)) -> Seq<char> {
    message_at(ls[f.0].1, ls[f.0].2, f.1)
}

/// Whether a message starts with a source position: `line:column: ` and then its text.
pub open spec fn is_located(m: Seq<char>) -> bool {
    exists|line: nat, column: nat, text: Seq<char>| #[trigger] message_at(line, column, text) == m
}

pub open spec fn non_ascii_message(line: nat, column: nat, c: char) -> Seq<char> {
    message_at(line, column, "non-ASCII character '"@ + seq![c] + "'"@)
}

pub open spec fn unexpected_message(line: nat, column: nat, c: char) -> Seq<char> {
    message_at(line, column, "unexpected character '"@ + seq![c] + "'"@)
}

/// Whether the character at `i` ends a word: it cannot continue an identifier, or it is a
/// `-` starting `->`.
pub open spec fn breaks_word(cs: Seq<char>, i: int) -> bool {
    !ident_char(cs[i]) || (cs[i] == '-' && i + 1 < cs.len() && cs[i + 1] == '>')
}

/// Where a word continued from `i` ends.
pub open spec fn word_end(cs: Seq<char>, i: int) -> int
    decreases cs.len() - i,
{
    if i >= cs.len() || breaks_word(cs, i) {
        i
    } else {
        word_end(cs, i + 1)
    }
}

pub proof fn lemma_word_end(cs: Seq<char>, i: int)
    ensures
        word_end(cs, i) >= i,
        i <= cs.len() ==> word_end(cs, i) <= cs.len(),
    decreases cs.len() - i,
{
    if !(i >= cs.len() || breaks_word(cs, i)) {
        lemma_word_end(cs, i + 1);
    }
}

/// The ASCII lowercase of a text.
pub open spec fn lowercase(s: Seq<char>) -> Seq<char> {
    s.map_values(|c: char| lower(c))
}

/// The lexeme of a normalized word: the four operator words are symbols.
pub open spec fn word_lexeme(w: Seq<char>) -> Lexeme {
    if w == "and"@ {
        Lexeme::Mark(Symbol::And)
    } else if w == "or"@ {
        Lexeme::Mark(Symbol::Or)
    } else if w == "not"@ {
        Lexeme::Mark(Symbol::Not)
    } else if w == "implies"@ {
        Lexeme::Mark(Symbol::Implies)
    } else {
        Lexeme::Word(w)
    }
}

/// The symbol starting at `i` and how many characters it takes.
pub open spec fn symbol_at(cs: Seq<char>, i: int) -> Option<(Symbol, int)> {
    let c = cs[i];
    let two = i + 1 < cs.len();
    if c == '{' {
        Some((Symbol::LBrace, 1))
    } else if c == '}' {
        Some((Symbol::RBrace, 1))
    } else if c == '(' {
        Some((Symbol::LParen, 1))
    } else if c == ')' {
        Some((Symbol::RParen, 1))
    } else if c == ',' {
        Some((Symbol::Comma, 1))
    } else if c == ':' {
        Some((Symbol::Colon, 1))
    } else if c == ';' {
        Some((Symbol::Semi, 1))
    } else if c == '.' {
        Some((Symbol::Dot, 1))
    } else if c == '&' {
        Some((Symbol::And, if two && cs[i + 1] == '&' { 2 } else { 1 }))
    } else if c == '|' {
        Some((Symbol::Or, if two && cs[i + 1] == '|' { 2 } else { 1 }))
    } else if c == '!' {
        if two && cs[i + 1] == '=' {
            Some((Symbol::NotEqual, 2))
        } else {
            Some((Symbol::Not, 1))
        }
    } else if c == '=' {
        Some((Symbol::Equal, 1))
    } else if c == '-' && two && cs[i + 1] == '>' {
        Some((Symbol::Implies, 2))
    } else {
        None
    }
}

/// `t` followed by the tokens of `r`, or the error of `r`.
pub open spec fn then_prepend(t: (Lexeme, nat, nat), r: Result<Seq<(Lexeme, nat, nat)>, Seq<char>>) -> Result<Seq<(Lexeme, nat, nat)>, Seq<char>> {
    match r {
        Ok(ts) => Ok(seq![t] + ts),
        Err(m) => Err(m),
    }
}

/// `p` followed by the tokens of `r`, or the error of `r`.
pub open spec fn after(p: Seq<(Lexeme, nat, nat)>, r: Result<Seq<(Lexeme, nat, nat)>, Seq<char>>) -> Result<Seq<(Lexeme, nat, nat)>, Seq<char>> {
    match r {
        Ok(ts) => Ok(p + ts),
        Err(m) => Err(m),
    }
}

/// The tokens of `cs` from index `i`, at the given line and column, or the error message.
///
/// Line feeds start a new line at column 1; other white space advances the column; `//`
/// starts a comment through the end of the line; a letter starts a word, lowercased, whose
/// operator spellings become symbols; every other character must start a symbol. Any
/// non-ASCII character, comments included, is an error at its position.
pub open spec fn lex_from(cs: Seq<char>, i: int, line: nat, column: nat) -> Result<Seq<(Lexeme, nat, nat)>, Seq<char>>
    decreases cs.len() - i, 0int,
{
    if i >= cs.len() {
        Ok(seq![(Lexeme::Stop, line, column)])
    } else if !ascii(cs[i]) {
        Err(non_ascii_message(line, column, cs[i]))
    } else if cs[i] == '\n' {
        lex_from(cs, i + 1, line + 1, 1)
    } else if space(cs[i]) {
        lex_from(cs, i + 1, line, column + 1)
    } else if cs[i] == '/' && i + 1 < cs.len() && cs[i + 1] == '/' {
        comment_from(cs, i + 2, line, column + 2)
    } else if letter(cs[i]) {
        let e = word_end(cs, i + 1);
        proof {
            lemma_word_end(cs, i + 1);
        }
        then_prepend(
            (word_lexeme(lowercase(cs.subrange(i, e))), line, column),
            lex_from(cs, e, line, (column + (e - i)) as nat),
        )
    } else {
        match symbol_at(cs, i) {
            Some((s, w)) => if w >= 1 {
                then_prepend((Lexeme::Mark(s), line, column), lex_from(cs, i + w, line, (column + w) as nat))
            } else {
                Err(unexpected_message(line, column, cs[i]))
            },
            None => Err(unexpected_message(line, column, cs[i])),
        }
    }
}

/// The rest of a comment from index `i`, then the tokens after it.
pub open spec fn comment_from(cs: Seq<char>, i: int, line: nat, column: nat) -> Result<Seq<(Lexeme, nat, nat)>, Seq<char>>
    decreases cs.len() - i, 1int,
{
    if i >= cs.len() {
        lex_from(cs, i, line, column)
    } else if !ascii(cs[i]) {
        Err(non_ascii_message(line, column, cs[i]))
    } else if cs[i] == '\n' {
        lex_from(cs, i + 1, line + 1, 1)
    } else {
        comment_from(cs, i + 1, line, column + 1)
    }
}

/// The error for a non-ASCII character at a source position.
fn non_ascii_at(line: usize, column: usize, c: char) -> (e: Error)
    ensures
        e.spec_kind() == ErrorKind::InvalidInput,
        e.spec_message() == non_ascii_message(line as nat, column as nat, c),
        is_located(e.spec_message()),
{
    let e = non_ascii_error(line, column, c);
    assert(e.spec_message() =~= non_ascii_message(line as nat, column as nat, c));
    assert(message_at(line as nat, column as nat, "non-ASCII character '"@ + seq![c] + "'"@) == e.spec_message());
    e
}

/// The error for a character that starts no token.
fn unexpected_at(line: usize, column: usize, c: char) -> (e: Error)
    ensures
        e.spec_kind() == ErrorKind::InvalidInput,
        e.spec_message() == unexpected_message(line as nat, column as nat, c),
        is_located(e.spec_message()),
{
    let shown = char_string(c);
    let message = concat3("unexpected character '", shown.as_str(), "'");
    let e = Error::new(located(line, column, message.as_str()));
    assert(e.spec_message() =~= unexpected_message(line as nat, column as nat, c));
    assert(message_at(line as nat, column as nat, "unexpected character '"@ + seq![c] + "'"@) == e.spec_message());
    e
}

proof fn lemma_after_push(p: Seq<(Lexeme, nat, nat)>, t: (Lexeme, nat, nat), r: Result<Seq<(Lexeme, nat, nat)>, Seq<char>>)
    ensures
        after(p, then_prepend(t, r)) == after(p.push(t), r),
{
    match r {
        Ok(ts) => {
            assert(p + (seq![t] + ts) =~= p.push(t) + ts);
        },
        Err(m) => {},
    }
}

pub(crate) proof fn lemma_lower_char(c: char)
    ensures
        lower(lower(c)) == lower(c),
        ascii(lower(c)) == ascii(c),
        letter(lower(c)) == letter(c),
        ident_char(lower(c)) == ident_char(c),
        space(lower(c)) == space(c),
        !letter(c) ==> lower(c) == c,
{
    if 65 <= (c as u32) <= 90 {
        assert(((c as u32) + 32) as char as u32 == (c as u32) + 32);
    }
}

proof fn lemma_word_end_lower(cs: Seq<char>, i: int)
    requires
        0 <= i,
    ensures
        word_end(lowercase(cs), i) == word_end(cs, i),
    decreases cs.len() - i,
{
    let ls = lowercase(cs);
    if i < cs.len() {
        lemma_lower_char(cs[i]);
        if i + 1 < cs.len() {
            lemma_lower_char(cs[i + 1]);
        }
        assert(breaks_word(ls, i) == breaks_word(cs, i));
        if !breaks_word(cs, i) {
            lemma_word_end_lower(cs, i + 1);
        }
    }
}

proof fn lemma_lex_lower(cs: Seq<char>, i: int, line: nat, column: nat)
    requires
        0 <= i,
    ensures
        lex_from(lowercase(cs), i, line, column) == lex_from(cs, i, line, column),
    decreases cs.len() - i, 0int,
{
    let ls = lowercase(cs);
    if i < cs.len() {
        let c = cs[i];
        assert(ls[i] == lower(c));
        lemma_lower_char(c);
        if i + 1 < cs.len() {
            assert(ls[i + 1] == lower(cs[i + 1]));
            lemma_lower_char(cs[i + 1]);
        }
        if !ascii(c) {
        } else if c == '\n' {
            lemma_lex_lower(cs, i + 1, line + 1, 1);
        } else if space(c) {
            lemma_lex_lower(cs, i + 1, line, column + 1);
        } else if c == '/' && i + 1 < cs.len() && cs[i + 1] == '/' {
            lemma_comment_lower(cs, i + 2, line, column + 2);
        } else if letter(c) {
            let e = word_end(cs, i + 1);
            lemma_word_end(cs, i + 1);
            lemma_word_end_lower(cs, i + 1);
            assert(lowercase(ls.subrange(i, e)) =~= lowercase(cs.subrange(i, e))) by {
                assert forall|k: int| 0 <= k < e - i implies #[trigger] lowercase(ls.subrange(i, e))[k] == lowercase(cs.subrange(i, e))[k] by {
                    lemma_lower_char(cs[i + k]);
                }
            }
            lemma_lex_lower(cs, e, line, (column + (e - i)) as nat);
        } else {
            assert(symbol_at(ls, i) == symbol_at(cs, i));
            match symbol_at(cs, i) {
                Some((s, w)) => {
                    if w >= 1 {
                        lemma_lex_lower(cs, i + w, line, (column + w) as nat);
                    }
                },
                None => {},
            }
        }
    }
}

proof fn lemma_comment_lower(cs: Seq<char>, i: int, line: nat, column: nat)
    requires
        0 <= i,
    ensures
        comment_from(lowercase(cs), i, line, column) == comment_from(cs, i, line, column),
    decreases cs.len() - i, 1int,
{
    let ls = lowercase(cs);
    if i >= cs.len() {
        lemma_lex_lower(cs, i, line, column);
    } else {
        let c = cs[i];
        assert(ls[i] == lower(c));
        lemma_lower_char(c);
        if !ascii(c) {
        } else if c == '\n' {
            lemma_lex_lower(cs, i + 1, line + 1, 1);
        } else {
            lemma_comment_lower(cs, i + 1, line, column + 1);
        }
    }
}

/// Names are case-insensitive: lowercasing the ASCII letters of a source leaves its tokens,
/// and any lexical error, unchanged.
pub proof fn law_lex_case_insensitive(cs: Seq<char>)
    ensures
        lex_from(lowercase(cs), 0, 1, 1) == lex_from(cs, 0, 1, 1),
{
    lemma_lex_lower(cs, 0, 1, 1);
}

/// Whether a lexeme that is a name is lowercase and none of the operator words.
pub open spec fn name_lexeme_ok(l: Lexeme) -> bool {
    l matches Lexeme::Word(w) ==> lowercase(w) == w && w != "and"@ && w != "or"@ && w != "not"@ && w != "implies"@
}

proof fn lemma_lowercase_idempotent(s: Seq<char>)
    ensures
        lowercase(lowercase(s)) == lowercase(s),
{
    assert forall|k: int| 0 <= k < s.len() implies #[trigger] lowercase(lowercase(s))[k] == lowercase(s)[k] by {
        lemma_lower_char(s[k]);
    }
    assert(lowercase(lowercase(s)) =~= lowercase(s));
}

proof fn lemma_prepend_names(t: (Lexeme, nat, nat), r: Result<Seq<(Lexeme, nat, nat)>, Seq<char>>)
    requires
        name_lexeme_ok(t.0),
        r matches Ok(ts) ==> forall|k: int| 0 <= k < ts.len() ==> name_lexeme_ok(#[trigger] ts[k].0),
    ensures
        then_prepend(t, r) matches Ok(ts) ==> forall|k: int| 0 <= k < ts.len() ==> name_lexeme_ok(#[trigger] ts[k].0),
{
    if let Ok(rest) = r {
        let ts = seq![t] + rest;
        assert forall|k: int| 0 <= k < ts.len() implies name_lexeme_ok(#[trigger] ts[k].0) by {
            if k > 0 {
                assert(ts[k] == rest[k - 1]);
            }
        }
    }
}

proof fn lemma_lex_names(cs: Seq<char>, i: int, line: nat, column: nat)
    ensures
        lex_from(cs, i, line, column) matches Ok(ts) ==> forall|k: int| 0 <= k < ts.len() ==> name_lexeme_ok(#[trigger] ts[k].0),
    decreases cs.len() - i, 0int,
{
    if i >= cs.len() {
        let ts = seq![(Lexeme::Stop, line, column)];
        assert forall|k: int| 0 <= k < ts.len() implies name_lexeme_ok(#[trigger] ts[k].0) by {
            assert(ts[k].0 == Lexeme::Stop);
        }
    } else if !ascii(cs[i]) {
    } else if cs[i] == '\n' {
        lemma_lex_names(cs, i + 1, line + 1, 1);
    } else if space(cs[i]) {
        lemma_lex_names(cs, i + 1, line, column + 1);
    } else if cs[i] == '/' && i + 1 < cs.len() && cs[i + 1] == '/' {
        lemma_comment_names(cs, i + 2, line, column + 2);
    } else if letter(cs[i]) {
        let e = word_end(cs, i + 1);
        lemma_word_end(cs, i + 1);
        lemma_lowercase_idempotent(cs.subrange(i, e));
        lemma_lex_names(cs, e, line, (column + (e - i)) as nat);
        lemma_prepend_names((word_lexeme(lowercase(cs.subrange(i, e))), line, column), lex_from(cs, e, line, (column + (e - i)) as nat));
    } else {
        match symbol_at(cs, i) {
            Some((sym, w)) => if w >= 1 {
                lemma_lex_names(cs, i + w, line, (column + w) as nat);
                lemma_prepend_names((Lexeme::Mark(sym), line, column), lex_from(cs, i + w, line, (column + w) as nat));
            },
            None => {},
        }
    }
}

proof fn lemma_comment_names(cs: Seq<char>, i: int, line: nat, column: nat)
    ensures
        comment_from(cs, i, line, column) matches Ok(ts) ==> forall|k: int| 0 <= k < ts.len() ==> name_lexeme_ok(#[trigger] ts[k].0),
    decreases cs.len() - i, 1int,
{
    if i >= cs.len() {
        lemma_lex_names(cs, i, line, column);
    } else if !ascii(cs[i]) {
    } else if cs[i] == '\n' {
        lemma_lex_names(cs, i + 1, line + 1, 1);
    } else {
        lemma_comment_names(cs, i + 1, line, column + 1);
    }
}

/// Names are normalized: every name the lexer produces is lowercase and none of `and`, `or`,
/// `not`, `implies`, which in any letter case lex as operators.
pub proof fn law_lex_names(cs: Seq<char>)
    ensures
        lex_from(cs, 0, 1, 1) matches Ok(ts) ==> forall|k: int| 0 <= k < ts.len() ==> name_lexeme_ok(#[trigger] ts[k].0),
{
    lemma_lex_names(cs, 0, 1, 1);
}

/// Splits source text into tokens, following `lex_from`.
///
/// Words start with an ASCII letter and continue with letters, digits, `_`, or `-` (a `-`
/// directly followed by `>` ends the word); they are lowercased, and `and`, `or`, `not`,
/// and `implies` become operators. `//` starts a comment through the end of the line.
/// Every character, comments included, must be ASCII.
pub fn lex(source: &str) -> (r: Result<Vec<Token>, Error>)
    requires
        source@.len() < usize::MAX,
    ensures
        r is Ok <==> lex_from(source@, 0, 1, 1) is Ok,
        r matches Ok(ts) ==> lex_from(source@, 0, 1, 1) == Ok::<Seq<(Lexeme, nat, nat)>, Seq<char>>(tokens_view(ts@)),
        r matches Err(e) ==> lex_from(source@, 0, 1, 1) == Err::<Seq<(Lexeme, nat, nat)>, Seq<char>>(e.spec_message()),
        r matches Ok(ts) ==> tokens_ok(ts@) && all_ascii(source@),
        !all_ascii(source@) ==> r is Err,
        r matches Err(e) ==> e.spec_kind() == ErrorKind::InvalidInput,
        r matches Err(e) ==> is_located(e.spec_message()),
{
    let cs = str_chars(source);
    let ghost whole = lex_from(cs@, 0, 1, 1);
    let mut result: Vec<Token> = Vec::new();
    let mut i: usize = 0;
    let mut line: usize = 1;
    let mut column: usize = 1;
    proof {
        assert(tokens_view(result@) =~= Seq::<(Lexeme, nat, nat)>::empty());
        assert(after(Seq::<(Lexeme, nat, nat)>::empty(), whole) == whole);
    }
    while i < cs.len()
        invariant
            cs@ == source@,
            cs@.len() < usize::MAX,
            whole == lex_from(cs@, 0, 1, 1),
            i <= cs@.len(),
            1 <= line <= i + 1,
            1 <= column <= i + 1,
            forall|j: int| 0 <= j < i ==> ascii(#[trigger] cs@[j]),
            names_ok(result@),
            whole == after(tokens_view(result@), lex_from(cs@, i as int, line as nat, column as nat)),
        decreases cs.len() - i,
    {
        let ch = cs[i];
        if !is_ascii(ch) {
            return Err(non_ascii_at(line, column, ch));
        }
        if ch == '\n' {
            line = line + 1;
            column = 1;
            i = i + 1;
            continue;
        }
        if is_space(ch) {
            column = column + 1;
            i = i + 1;
            continue;
        }
        if ch == '/' && i + 1 < cs.len() && cs[i + 1] == '/' {
            i = i + 2;
            column = column + 2;
            let ghost i0 = i;
            while i < cs.len()
                invariant_except_break
                    whole == after(tokens_view(result@), comment_from(cs@, i as int, line as nat, column as nat)),
                invariant
                    i0 <= i,
                    cs@ == source@,
                    cs@.len() < usize::MAX,
                    whole == lex_from(cs@, 0, 1, 1),
                    i <= cs@.len(),
                    1 <= line <= i + 1,
                    1 <= column <= i + 1,
                    forall|j: int| 0 <= j < i ==> ascii(#[trigger] cs@[j]),
                ensures
                    i0 <= i,
                    i <= cs@.len(),
                    1 <= line <= i + 1,
                    1 <= column <= i + 1,
                    forall|j: int| 0 <= j < i ==> ascii(#[trigger] cs@[j]),
                    whole == after(tokens_view(result@), lex_from(cs@, i as int, line as nat, column as nat)),
                decreases cs.len() - i,
            {
                let c = cs[i];
                if !is_ascii(c) {
                    proof {
                        assert(comment_from(cs@, i as int, line as nat, column as nat) == Err::<Seq<(Lexeme, nat, nat)>, Seq<char>>(
                            non_ascii_message(line as nat, column as nat, c)));
                    }
                    return Err(non_ascii_at(line, column, c));
                }
                i = i + 1;
                if c == '\n' {
                    line = line + 1;
                    column = 1;
                    break;
                }
                column = column + 1;
            }
            continue;
        }
        let start_line = line;
        let start_column = column;
        let ghost start = i as int;
        if is_letter(ch) {
            let mut word: Vec<char> = Vec::new();
            proof {
                lemma_lower(ch);
            }
            word.push(to_lower(ch));
            i = i + 1;
            column = column + 1;
            let ghost i0 = i;
            proof {
                assert(word@ =~= lowercase(cs@.subrange(start, i as int)));
            }
            while i < cs.len()
                invariant
                    i0 <= i,
                    0 <= start,
                    i0 == start + 1,
                    whole == lex_from(cs@, 0, 1, 1),
                    cs@ == source@,
                    cs@.len() < usize::MAX,
                    i <= cs@.len(),
                    1 <= line <= i + 1,
                    1 <= column <= i + 1,
                    column == start_column + (i - start),
                    forall|j: int| 0 <= j < i ==> ascii(#[trigger] cs@[j]),
                    word@.len() > 0,
                    lower_letter(word@[0]),
                    forall|k: int| 0 <= k < word@.len() ==> word_char(#[trigger] word@[k]),
                    word@ == lowercase(cs@.subrange(start, i as int)),
                    word_end(cs@, start + 1) == word_end(cs@, i as int),
                ensures
                    i0 <= i,
                    i <= cs@.len(),
                    1 <= line <= i + 1,
                    1 <= column <= i + 1,
                    column == start_column + (i - start),
                    forall|j: int| 0 <= j < i ==> ascii(#[trigger] cs@[j]),
                    word@.len() > 0,
                    lower_letter(word@[0]),
                    forall|k: int| 0 <= k < word@.len() ==> word_char(#[trigger] word@[k]),
                    word@ == lowercase(cs@.subrange(start, i as int)),
                    word_end(cs@, start + 1) == i,
                decreases cs.len() - i,
            {
                let next = cs[i];
                if next == '-' && i + 1 < cs.len() && cs[i + 1] == '>' {
                    break;
                }
                if !is_ident_char(next) {
                    break;
                }
                proof {
                    lemma_lower(next);
                }
                let ghost w0 = word@;
                word.push(to_lower(next));
                proof {
                    let target = lowercase(cs@.subrange(start, i + 1));
                    assert(target.len() == word@.len());
                    assert forall|k: int| 0 <= k < word@.len() implies word@[k] == target[k] by {
                        if k < w0.len() {
                            assert(word@[k] == w0[k]);
                            assert(w0[k] == lowercase(cs@.subrange(start, i as int))[k]);
                        } else {
                            assert(word@[k] == lower(next));
                        }
                    }
                    assert(word@ =~= target);
                }
                i = i + 1;
                column = column + 1;
            }
            let text = string_from_chars(&word);
            let kind = if equals_literal(&text, "and") {
                TokenKind::Symbol(Symbol::And)
            } else if equals_literal(&text, "or") {
                TokenKind::Symbol(Symbol::Or)
            } else if equals_literal(&text, "not") {
                TokenKind::Symbol(Symbol::Not)
            } else if equals_literal(&text, "implies") {
                TokenKind::Symbol(Symbol::Implies)
            } else {
                TokenKind::Name(text)
            };
            let ghost before = result@;
            let token = Token { kind, line: start_line, column: start_column };
            proof {
                assert(token_view(token).0 == word_lexeme(word@));
                assert(lex_from(cs@, start, start_line as nat, start_column as nat) == then_prepend(
                    token_view(token),
                    lex_from(cs@, i as int, line as nat, column as nat),
                ));
                lemma_after_push(tokens_view(before), token_view(token), lex_from(cs@, i as int, line as nat, column as nat));
            }
            result.push(token);
            proof {
                assert(tokens_view(result@) =~= tokens_view(before).push(token_view(token)));
                assert forall|k: int| 0 <= k < result@.len() implies ((#[trigger] result@[k]).kind matches TokenKind::Name(n) ==> is_word(n@)) by {
                    if k < before.len() {
                        assert(result@[k] == before[k]);
                    }
                }
            }
            continue;
        }
        let has_next = i + 1 < cs.len();
        let next = if has_next { cs[i + 1] } else { ' ' };
        let mut width: usize = 1;
        let symbol = if ch == '{' {
            Some(Symbol::LBrace)
        } else if ch == '}' {
            Some(Symbol::RBrace)
        } else if ch == '(' {
            Some(Symbol::LParen)
        } else if ch == ')' {
            Some(Symbol::RParen)
        } else if ch == ',' {
            Some(Symbol::Comma)
        } else if ch == ':' {
            Some(Symbol::Colon)
        } else if ch == ';' {
            Some(Symbol::Semi)
        } else if ch == '.' {
            Some(Symbol::Dot)
        } else if ch == '&' {
            if has_next && next == '&' {
                width = 2;
            }
            Some(Symbol::And)
        } else if ch == '|' {
            if has_next && next == '|' {
                width = 2;
            }
            Some(Symbol::Or)
        } else if ch == '!' {
            if has_next && next == '=' {
                width = 2;
                Some(Symbol::NotEqual)
            } else {
                Some(Symbol::Not)
            }
        } else if ch == '=' {
            Some(Symbol::Equal)
        } else if ch == '-' && has_next && next == '>' {
            width = 2;
            Some(Symbol::Implies)
        } else {
            None
        };
        proof {
            assert(symbol matches Some(s) ==> symbol_at(cs@, i as int) == Some((s, width as int)));
            assert(symbol is None ==> symbol_at(cs@, i as int) is None);
        }
        match symbol {
            Some(s) => {
                let ghost before = result@;
                let token = Token { kind: TokenKind::Symbol(s), line: start_line, column: start_column };
                proof {
                    lemma_after_push(tokens_view(before), token_view(token),
                        lex_from(cs@, i + width, line as nat, (column + width) as nat));
                }
                result.push(token);
                proof {
                    assert(tokens_view(result@) =~= tokens_view(before).push(token_view(token)));
                    assert forall|k: int| 0 <= k < result@.len() implies ((#[trigger] result@[k]).kind matches TokenKind::Name(n) ==> is_word(n@)) by {
                        if k < before.len() {
                            assert(result@[k] == before[k]);
                        }
                    }
                    if width == 2 {
                        assert(ascii(cs@[i + 1]));
                    }
                }
                i = i + width;
                column = column + width;
            },
            None => {
                return Err(unexpected_at(line, column, ch));
            },
        }
    }
    let ghost before = result@;
    let end = Token { kind: TokenKind::End, line, column };
    result.push(end);
    proof {
        assert(tokens_view(result@) =~= tokens_view(before).push(token_view(end)));
        assert(tokens_view(before) + seq![token_view(end)] =~= tokens_view(before).push(token_view(end)));
        assert forall|k: int| 0 <= k < result@.len() implies ((#[trigger] result@[k]).kind matches TokenKind::Name(n) ==> is_word(n@)) by {
            if k < before.len() {
                assert(result@[k] == before[k]);
            }
        }
        assert(all_ascii(source@));
    }
    Ok(result)
}

// ----------------------------------------------------------------------------------------------
// Token access
// ----------------------------------------------------------------------------------------------

/// The most nested formulas the parser accepts.
pub const MAX_NESTING: usize = 256;

/// Whether `p` is a position in a well-formed token stream.
pub open spec fn at(ts: Seq<Token>, p: int) -> bool {
    tokens_ok(ts) && 0 <= p < ts.len()
}

/// Whether a failure is an input error.
pub open spec fn input_error<T>(r: Result<T, Error>) -> bool {
    r matches Err(e) ==> e.spec_kind() == ErrorKind::InvalidInput && is_located(e.spec_message())
}

fn is_end(ts: &Vec<Token>, pos: usize) -> (r: bool)
    requires
        pos < ts@.len(),
    ensures
        r == (ts@[pos as int].kind is End),
{
    match &ts[pos].kind {
        TokenKind::End => true,
        _ => false,
    }
}

fn is_symbol(ts: &Vec<Token>, pos: usize, s: Symbol) -> (r: bool)
    requires
        pos < ts@.len(),
    ensures
        r == (ts@[pos as int].kind == TokenKind::Symbol(s)),
        r == sym(tokens_view(ts@), pos as int, s),
{
    match &ts[pos].kind {
        TokenKind::Symbol(t) => *t == s,
        _ => false,
    }
}

/// Whether the current token is the name `lit`.
fn peek_is(ts: &Vec<Token>, pos: usize, lit: &str) -> (r: bool)
    requires
        pos < ts@.len(),
    ensures
        r == (ts@[pos as int].kind matches TokenKind::Name(n) && n@ == lit@),
        r == word_is(tokens_view(ts@), pos as int, lit@),
{
    match &ts[pos].kind {
        TokenKind::Name(n) => equals_literal(n, lit),
        _ => false,
    }
}

/// Moves past the current token unless it is the end.
fn advance(ts: &Vec<Token>, pos: &mut usize)
    requires
        at(ts@, *old(pos) as int),
    ensures
        at(ts@, *final(pos) as int),
        ts@[*old(pos) as int].kind is End ==> *final(pos) == *old(pos),
        !(ts@[*old(pos) as int].kind is End) ==> *final(pos) == *old(pos) + 1,
{
    if !is_end(ts, *pos) {
        let count = ts.len();
        proof {
            lemma_not_last(ts@, *pos as int);
        }
        assert(*pos + 1 < count);
        *pos = *pos + 1;
    }
}

/// A token other than the end is not the last one.
proof fn lemma_not_last(ts: Seq<Token>, p: int)
    requires
        at(ts, p),
        !(ts[p].kind is End),
    ensures
        p + 1 < ts.len(),
{
    assert(ts[ts.len() - 1].kind is End);
}

/// An error at the current token.
fn error_here(ts: &Vec<Token>, pos: usize, message: &str) -> (e: Error)
    requires
        pos < ts@.len(),
    ensures
        e.spec_kind() == ErrorKind::InvalidInput,
        e.spec_message() == message_at(ts@[pos as int].line as nat, ts@[pos as int].column as nat, message@),
        is_located(e.spec_message()),
{
    let e = Error::new(located(ts[pos].line, ts[pos].column, message));
    assert(e.spec_message() == message_at(ts@[pos as int].line as nat, ts@[pos as int].column as nat, message@));
    e
}

/// An error at the token before the current one.
fn error_previous(ts: &Vec<Token>, pos: usize, message: &str) -> (e: Error)
    requires
        pos < ts@.len(),
    ensures
        e.spec_kind() == ErrorKind::InvalidInput,
        pos > 0 ==> e.spec_message() == message_at(ts@[pos - 1].line as nat, ts@[pos - 1].column as nat, message@),
        is_located(e.spec_message()),
{
    let p = if pos > 0 { pos - 1 } else { 0 };
    let e = Error::new(located(ts[p].line, ts[p].column, message));
    assert(e.spec_message() == message_at(ts@[p as int].line as nat, ts@[p as int].column as nat, message@));
    e
}

/// Reads a name that is not reserved.
fn read_name(ts: &Vec<Token>, pos: &mut usize) -> (r: Result<String, Error>)
    requires
        at(ts@, *old(pos) as int),
    ensures
        at(ts@, *final(pos) as int),
        *old(pos) <= *final(pos),
        r matches Ok(n) ==> is_word(n@) && *final(pos) == *old(pos) + 1,
        r is Ok <==> name_at(tokens_view(ts@), *old(pos) as int) is Some,
        r matches Ok(n) ==> name_at(tokens_view(ts@), *old(pos) as int) == Some(n@),
        r matches Err(e) ==> e.spec_message() == message_at(
            ts@[*old(pos) as int].line as nat,
            ts@[*old(pos) as int].column as nat,
            match ts@[*old(pos) as int].kind {
                TokenKind::Name(n) => "reserved word '"@ + n@ + "' cannot be used as a name"@,
                _ => "expected an identifier"@,
            },
        ),
        input_error(r),
{
    let p = *pos;
    match &ts[p].kind {
        TokenKind::Name(n) => {
            if equals_literal(n, "true") || equals_literal(n, "false") || equals_literal(n, "forall") || equals_literal(n, "exists") {
                let message = concat3("reserved word '", n.as_str(), "' cannot be used as a name");
                return Err(error_here(ts, p, message.as_str()));
            }
            let name = n.clone();
            proof {
                assert(is_word(n@));
                lemma_not_last(ts@, p as int);
            }
            let count = ts.len();
            assert(p + 1 < count);
            *pos = p + 1;
            Ok(name)
        },
        _ => Err(error_here(ts, p, "expected an identifier")),
    }
}

/// Consumes the name `expected`.
fn expect_name(ts: &Vec<Token>, pos: &mut usize, expected: &str) -> (r: Result<(), Error>)
    requires
        at(ts@, *old(pos) as int),
    ensures
        at(ts@, *final(pos) as int),
        *old(pos) <= *final(pos),
        r is Ok ==> *final(pos) == *old(pos) + 1,
        r is Ok <==> word_is(tokens_view(ts@), *old(pos) as int, expected@),
        r matches Err(e) ==> e.spec_message() == message_at(
            ts@[*old(pos) as int].line as nat,
            ts@[*old(pos) as int].column as nat,
            "expected '"@ + expected@ + "'"@,
        ),
        input_error(r),
{
    if peek_is(ts, *pos, expected) {
        advance(ts, pos);
        Ok(())
    } else {
        let message = concat3("expected '", expected, "'");
        Err(error_here(ts, *pos, message.as_str()))
    }
}

/// The text that names a symbol in messages.
pub open spec fn symbol_text(s: Symbol) -> Seq<char> {
    match s {
        Symbol::LBrace => "'{'"@,
        Symbol::RBrace => "'}'"@,
        Symbol::LParen => "'('"@,
        Symbol::RParen => "')'"@,
        Symbol::Comma => "','"@,
        Symbol::Colon => "':'"@,
        Symbol::Semi => "';'"@,
        Symbol::Dot => "'.'"@,
        Symbol::And => "conjunction"@,
        Symbol::Or => "disjunction"@,
        Symbol::Not => "negation"@,
        Symbol::Implies => "implication"@,
        Symbol::Equal => "'='"@,
        Symbol::NotEqual => "'!='"@,
    }
}

/// How a symbol is named in messages.
fn symbol_name(s: Symbol) -> (r: &'static str)
    ensures
        r@ == symbol_text(s),
{
    match s {
        Symbol::LBrace => "'{'",
        Symbol::RBrace => "'}'",
        Symbol::LParen => "'('",
        Symbol::RParen => "')'",
        Symbol::Comma => "','",
        Symbol::Colon => "':'",
        Symbol::Semi => "';'",
        Symbol::Dot => "'.'",
        Symbol::And => "conjunction",
        Symbol::Or => "disjunction",
        Symbol::Not => "negation",
        Symbol::Implies => "implication",
        Symbol::Equal => "'='",
        Symbol::NotEqual => "'!='",
    }
}

/// Consumes the symbol `expected`.
fn expect_symbol(ts: &Vec<Token>, pos: &mut usize, expected: Symbol) -> (r: Result<(), Error>)
    requires
        at(ts@, *old(pos) as int),
    ensures
        at(ts@, *final(pos) as int),
        *old(pos) <= *final(pos),
        r is Ok ==> *final(pos) == *old(pos) + 1,
        r is Ok <==> sym(tokens_view(ts@), *old(pos) as int, expected),
        r matches Err(e) ==> e.spec_message() == message_at(
            ts@[*old(pos) as int].line as nat,
            ts@[*old(pos) as int].column as nat,
            "expected "@ + symbol_text(expected),
        ),
        input_error(r),
{
    if is_symbol(ts, *pos, expected) {
        advance(ts, pos);
        Ok(())
    } else {
        let message = crate::text::concat("expected ", symbol_name(expected));
        Err(error_here(ts, *pos, message.as_str()))
    }
}


// ----------------------------------------------------------------------------------------------
// Formulas
// ----------------------------------------------------------------------------------------------

/// Whether every name in scope is a normalized identifier.
pub open spec fn scope_words(scope: Seq<String>) -> bool {
    forall|i: int| 0 <= i < scope.len() ==> is_word((#[trigger] scope[i])@)
}

/// The names in scope.
pub open spec fn scope_v(scope: Seq<String>) -> Seq<Seq<char>> {
    scope.map_values(|s: String| s@)
}

/// A variable if some binding in scope carries the name, else the object of that name.
fn term(name: String, scope: &Vec<String>) -> (t: Term)
    ensures
        crate::syntax::term_words(t) == is_word(name@),
        term_v(t) == term_for(name@, scope_v(scope@)),
{
    let mut i: usize = 0;
    while i < scope.len()
        invariant
            i <= scope@.len(),
            forall|j: int| 0 <= j < i ==> (#[trigger] scope@[j])@ != name@,
        decreases scope.len() - i,
    {
        if scope[i] == name {
            proof {
                assert(scope_v(scope@)[i as int] == name@);
            }
            return Term::Variable(name);
        }
        i = i + 1;
    }
    proof {
        assert(!scope_v(scope@).contains(name@)) by {
            if scope_v(scope@).contains(name@) {
                let j = choose|j: int| 0 <= j < scope_v(scope@).len() && scope_v(scope@)[j] == name@;
                assert(scope@[j]@ == name@);
            }
        }
    }
    Term::Constant(name)
}

/// The conjunction of two formulas, flattening nested conjunctions.
fn merge_and(left: Formula, right: Formula) -> (f: Formula)
    requires
        crate::syntax::formula_words(left),
        crate::syntax::formula_words(right),
    ensures
        crate::syntax::formula_words(f),
        formula_v(f) == combine(Symbol::And, formula_v(left), formula_v(right)),
{
    let ghost lv = formula_v(left);
    let ghost rv = formula_v(right);
    let mut parts: Vec<Formula> = match left {
        Formula::And(parts) => parts,
        other => {
            let mut v: Vec<Formula> = Vec::new();
            v.push(other);
            v
        },
    };
    let ghost first = parts@;
    proof {
        crate::syntax::lemma_formulas_words(parts@);
        crate::grammar::lemma_formulas_v(first);
        assert(and_parts(lv) =~= crate::grammar::formulas_v(first));
    }
    let ghost second: Seq<Formula>;
    match right {
        Formula::And(mut more) => {
            proof {
                crate::syntax::lemma_formulas_words(more@);
                second = more@;
                crate::grammar::lemma_formulas_v(second);
                assert(and_parts(rv) =~= crate::grammar::formulas_v(second));
            }
            parts.append(&mut more);
        },
        other => {
            proof {
                second = seq![other];
                crate::grammar::lemma_formulas_v(second);
                assert(and_parts(rv) =~= crate::grammar::formulas_v(second));
            }
            parts.push(other);
        },
    }
    proof {
        assert(parts@ =~= first + second);
        assert forall|i: int| 0 <= i < parts@.len() implies crate::syntax::formula_words(#[trigger] parts@[i]) by {
            if i < first.len() {
                assert(parts@[i] == first[i]);
            } else {
                assert(parts@[i] == second[i - first.len()]);
                crate::syntax::lemma_formulas_words(second);
            }
        }
        crate::syntax::lemma_formulas_words(parts@);
        crate::grammar::lemma_formulas_v(parts@);
        assert(crate::grammar::formulas_v(parts@) =~= crate::grammar::formulas_v(first) + crate::grammar::formulas_v(second));
    }
    Formula::And(parts)
}

/// The disjunction of two formulas, flattening nested disjunctions.
fn merge_or(left: Formula, right: Formula) -> (f: Formula)
    requires
        crate::syntax::formula_words(left),
        crate::syntax::formula_words(right),
    ensures
        crate::syntax::formula_words(f),
        formula_v(f) == combine(Symbol::Or, formula_v(left), formula_v(right)),
{
    let ghost lv = formula_v(left);
    let ghost rv = formula_v(right);
    let mut parts: Vec<Formula> = match left {
        Formula::Or(parts) => parts,
        other => {
            let mut v: Vec<Formula> = Vec::new();
            v.push(other);
            v
        },
    };
    let ghost first = parts@;
    proof {
        crate::syntax::lemma_formulas_words(parts@);
        crate::grammar::lemma_formulas_v(first);
        assert(or_parts(lv) =~= crate::grammar::formulas_v(first));
    }
    let ghost second: Seq<Formula>;
    match right {
        Formula::Or(mut more) => {
            proof {
                crate::syntax::lemma_formulas_words(more@);
                second = more@;
                crate::grammar::lemma_formulas_v(second);
                assert(or_parts(rv) =~= crate::grammar::formulas_v(second));
            }
            parts.append(&mut more);
        },
        other => {
            proof {
                second = seq![other];
                crate::grammar::lemma_formulas_v(second);
                assert(or_parts(rv) =~= crate::grammar::formulas_v(second));
            }
            parts.push(other);
        },
    }
    proof {
        assert(parts@ =~= first + second);
        assert forall|i: int| 0 <= i < parts@.len() implies crate::syntax::formula_words(#[trigger] parts@[i]) by {
            if i < first.len() {
                assert(parts@[i] == first[i]);
            } else {
                assert(parts@[i] == second[i - first.len()]);
                crate::syntax::lemma_formulas_words(second);
            }
        }
        crate::syntax::lemma_formulas_words(parts@);
        crate::grammar::lemma_formulas_v(parts@);
        assert(crate::grammar::formulas_v(parts@) =~= crate::grammar::formulas_v(first) + crate::grammar::formulas_v(second));
    }
    Formula::Or(parts)
}

/// An atom `name(terms)` or an equality `name = name` / `name != name`.
fn application_or_equality(ts: &Vec<Token>, pos: &mut usize, scope: &Vec<String>) -> (r: Result<Formula, Error>)
    requires
        at(ts@, *old(pos) as int),
    ensures
        at(ts@, *final(pos) as int),
        *old(pos) <= *final(pos),
        r is Ok ==> *old(pos) < *final(pos),
        r matches Ok(f) ==> crate::syntax::formula_words(f),
        r is Ok <==> g_application(tokens_view(ts@), *old(pos) as int, scope_v(scope@)) is Some,
        r matches Ok(f) ==> g_application(tokens_view(ts@), *old(pos) as int, scope_v(scope@)) == Some((formula_v(f), *final(pos) as int)),
        r matches Err(e) ==> e.spec_message() == failure_message(
            tokens_view(ts@),
            f_application(tokens_view(ts@), *old(pos) as int, scope_v(scope@)),
        ),
        input_error(r),
{
    let ghost tv = tokens_view(ts@);
    let ghost sv = scope_v(scope@);
    let ghost p0 = *pos as int;
    let first = read_name(ts, pos)?;
    let left = term(crate::text::copy_string(&first), scope);
    if is_symbol(ts, *pos, Symbol::Equal) || is_symbol(ts, *pos, Symbol::NotEqual) {
        let unequal = is_symbol(ts, *pos, Symbol::NotEqual);
        advance(ts, pos);
        let ghost p_second = *pos as int;
        let right_name = read_name(ts, pos)?;
        let ghost second = right_name@;
        let right = term(right_name, scope);
        let equality = Formula::Equal(left, right);
        let result = if unequal { Formula::Not(Box::new(equality)) } else { equality };
        proof {
            assert(crate::syntax::formula_words(equality));
            assert(p_second == p0 + 2);
            assert(name_at(tv, p0 + 2) == Some(second));
            let eqv = FormulaV::Equal(term_for(first@, sv), term_for(second, sv));
            assert(formula_v(equality) == eqv);
            if unequal {
                assert(formula_v(result) == FormulaV::Not(Box::new(eqv)));
            }
        }
        return Ok(result);
    }
    expect_symbol(ts, pos, Symbol::LParen)?;
    let ghost p2 = *pos as int;
    let mut terms: Vec<Term> = Vec::new();
    if !is_symbol(ts, *pos, Symbol::RParen) {
        proof {
            assert(crate::grammar::terms_v(terms@) =~= Seq::<TermV>::empty());
            assert(g_terms(tv, p2, sv) == crate::grammar::terms_after(Seq::<TermV>::empty(), g_terms(tv, p2, sv))) by {
                match g_terms(tv, p2, sv) {
                    Some((rest, q)) => {
                        assert(Seq::<TermV>::empty() + rest =~= rest);
                    },
                    None => {},
                }
            }
        }
        loop
            invariant_except_break
                at(ts@, *pos as int),
                *old(pos) <= *pos,
                tv == tokens_view(ts@),
                sv == scope_v(scope@),
                forall|i: int| 0 <= i < terms@.len() ==> crate::syntax::term_words(#[trigger] terms@[i]),
                g_terms(tv, p2, sv) == crate::grammar::terms_after(crate::grammar::terms_v(terms@), g_terms(tv, *pos as int, sv)),
                f_terms(tv, p2) == f_terms(tv, *pos as int),
                name_at(tv, p0) == Some(first@),
                p0 == *old(pos) as int,
                !sym(tv, p0 + 1, Symbol::Equal),
                !sym(tv, p0 + 1, Symbol::NotEqual),
                p2 == p0 + 2,
                sym(tv, p0 + 1, Symbol::LParen),
                !sym(tv, p2, Symbol::RParen),
                p2 <= *pos,
            ensures
                at(ts@, *pos as int),
                *old(pos) <= *pos,
                forall|i: int| 0 <= i < terms@.len() ==> crate::syntax::term_words(#[trigger] terms@[i]),
                g_terms(tv, p2, sv) == Some((crate::grammar::terms_v(terms@), *pos as int)),
            decreases ts@.len() - *pos,
        {
            let ghost q0 = *pos as int;
            let name = match read_name(ts, pos) {
                Ok(n) => n,
                Err(e) => {
                    proof {
                        assert(g_terms(tv, q0, sv) is None);
                        assert(g_terms(tv, p2, sv) is None);
                    }
                    return Err(e);
                },
            };
            let t = term(name, scope);
            let ghost before = terms@;
            terms.push(t);
            proof {
                assert(crate::grammar::terms_v(terms@) =~= crate::grammar::terms_v(before).push(term_v(t)));
            }
            if is_symbol(ts, *pos, Symbol::Comma) {
                proof {
                    lemma_not_last(ts@, *pos as int);
                }
                advance(ts, pos);
                proof {
                    match g_terms(tv, *pos as int, sv) {
                        Some((rest, q)) => {
                            assert(crate::grammar::terms_v(before) + (seq![term_v(t)] + rest) =~= crate::grammar::terms_v(terms@) + rest);
                        },
                        None => {},
                    }
                }
                continue;
            }
            proof {
                assert(crate::grammar::terms_v(before) + seq![term_v(t)] =~= crate::grammar::terms_v(terms@));
            }
            break;
        }
    }
    expect_symbol(ts, pos, Symbol::RParen)?;
    proof {
        if terms@.len() == 0 {
            assert(crate::grammar::terms_v(terms@) =~= Seq::<TermV>::empty());
        }
    }
    Ok(Formula::Atom(Atom { predicate: first, terms }))
}

/// `forall` or `exists`, typed bindings, `.`, and a body reaching the end of the formula.
fn quantified(ts: &Vec<Token>, pos: &mut usize, scope: &mut Vec<String>, depth: usize) -> (r: Result<Formula, Error>)
    requires
        at(ts@, *old(pos) as int),
        1 <= depth <= MAX_NESTING,
        scope_words(old(scope)@),
        word_is(tokens_view(ts@), *old(pos) as int, "forall"@) || word_is(tokens_view(ts@), *old(pos) as int, "exists"@),
    ensures
        at(ts@, *final(pos) as int),
        *old(pos) <= *final(pos),
        scope_words(final(scope)@),
        r is Ok ==> final(scope)@ == old(scope)@,
        r is Ok ==> *old(pos) < *final(pos),
        r matches Ok(f) ==> crate::syntax::formula_words(f),
        r is Ok <==> g_quantified(tokens_view(ts@), *old(pos) as int, scope_v(old(scope)@), depth as int) is Some,
        r matches Ok(f) ==> g_quantified(tokens_view(ts@), *old(pos) as int, scope_v(old(scope)@), depth as int)
            == Some((formula_v(f), *final(pos) as int)),
        r matches Err(e) ==> e.spec_message() == failure_message(
            tokens_view(ts@),
            f_quantified(tokens_view(ts@), *old(pos) as int, scope_v(old(scope)@), depth as int),
        ),
        input_error(r),
    decreases MAX_NESTING - depth, 2int,
{
    let ghost tv = tokens_view(ts@);
    let ghost sv = scope_v(scope@);
    let ghost p0 = *pos as int;
    let is_forall = peek_is(ts, *pos, "forall");
    proof {
        reveal_strlit("forall");
        reveal_strlit("exists");
        assert(!(tv[p0].0 is Stop));
    }
    advance(ts, pos);
    let ghost p1 = *pos as int;
    assert(p1 == p0 + 1);
    let old_len = scope.len();
    let mut bindings: Vec<Binding> = Vec::new();
    proof {
        assert(bindings_v(bindings@) =~= Seq::<(Seq<char>, Seq<char>)>::empty());
        assert(g_bindings(tv, p1) == bindings_after(Seq::<(Seq<char>, Seq<char>)>::empty(), g_bindings(tv, p1))) by {
            match g_bindings(tv, p1) {
                Some((rest, q)) => {
                    assert(Seq::<(Seq<char>, Seq<char>)>::empty() + rest =~= rest);
                },
                None => {},
            }
        }
        assert(scope_v(scope@) =~= sv + binding_names(bindings_v(bindings@)));
    }
    loop
        invariant_except_break
            at(ts@, *pos as int),
            *old(pos) <= *pos,
            p1 <= *pos,
            p0 == *old(pos) as int,
            p1 == p0 + 1,
            1 <= depth <= MAX_NESTING,
            tv == tokens_view(ts@),
            scope_words(scope@),
            old_len == old(scope)@.len(),
            old_len <= scope@.len(),
            scope@.subrange(0, old_len as int) == old(scope)@,
            scope_v(scope@) == sv + binding_names(bindings_v(bindings@)),
            sv == scope_v(old(scope)@),
            crate::syntax::bindings_words(bindings@),
            g_bindings(tv, p1) == bindings_after(bindings_v(bindings@), g_bindings(tv, *pos as int)),
            f_bindings(tv, p1) == f_bindings(tv, *pos as int),
        ensures
            at(ts@, *pos as int),
            *old(pos) <= *pos,
            p1 < *pos,
            scope_words(scope@),
            old_len == old(scope)@.len(),
            old_len <= scope@.len(),
            scope@.subrange(0, old_len as int) == old(scope)@,
            scope_v(scope@) == sv + binding_names(bindings_v(bindings@)),
            crate::syntax::bindings_words(bindings@),
            g_bindings(tv, p1) == Some((bindings_v(bindings@), *pos as int)),
        decreases ts@.len() - *pos,
    {
        let ghost q0 = *pos as int;
        let name = match read_name(ts, pos) {
            Ok(n) => n,
            Err(e) => {
                proof {
                    assert(g_bindings(tv, q0) is None);
                }
                return Err(e);
            },
        };
        match expect_symbol(ts, pos, Symbol::Colon) {
            Ok(()) => {},
            Err(e) => {
                proof {
                    assert(g_bindings(tv, q0) is None);
                }
                return Err(e);
            },
        }
        let ty = match read_name(ts, pos) {
            Ok(n) => n,
            Err(e) => {
                proof {
                    assert(g_bindings(tv, q0) is None);
                }
                return Err(e);
            },
        };
        let ghost before = bindings@;
        let ghost scope_before = scope@;
        let b = Binding { name: crate::text::copy_string(&name), ty };
        let ghost bv = binding_v(b);
        bindings.push(b);
        scope.push(name);
        proof {
            assert forall|i: int| 0 <= i < bindings@.len() implies is_word((#[trigger] bindings@[i]).name@) && is_word(bindings@[i].ty@) by {
                if i < before.len() {
                    assert(bindings@[i] == before[i]);
                }
            }
            assert forall|i: int| 0 <= i < scope@.len() implies is_word((#[trigger] scope@[i])@) by {
                if i < scope_before.len() {
                    assert(scope@[i] == scope_before[i]);
                }
            }
            assert(bindings_v(bindings@) =~= bindings_v(before).push(bv));
            assert(binding_names(bindings_v(bindings@)) =~= binding_names(bindings_v(before)).push(bv.0));
            assert(scope_v(scope@) =~= scope_v(scope_before).push(name@));
            assert(scope_v(scope@) =~= sv + binding_names(bindings_v(bindings@)));
            assert(scope@.subrange(0, old_len as int) =~= scope_before.subrange(0, old_len as int));
        }
        if is_symbol(ts, *pos, Symbol::Comma) {
            proof {
                lemma_not_last(ts@, *pos as int);
            }
            advance(ts, pos);
            proof {
                match g_bindings(tv, *pos as int) {
                    Some((rest, q)) => {
                        assert(bindings_v(before) + (seq![bv] + rest) =~= bindings_v(bindings@) + rest);
                    },
                    None => {},
                }
            }
            continue;
        }
        proof {
            assert(bindings_v(before) + seq![bv] =~= bindings_v(bindings@));
        }
        break;
    }
    let ghost q = *pos as int;
    let ghost bs = bindings_v(bindings@);
    match expect_symbol(ts, pos, Symbol::Dot) {
        Ok(()) => {},
        Err(e) => {
            return Err(e);
        },
    }
    let body = formula(ts, pos, 0, scope, depth)?;
    scope.truncate(old_len);
    proof {
        assert(scope@ =~= old(scope)@);
    }
    Ok(if is_forall { Formula::Forall(bindings, Box::new(body)) } else { Formula::Exists(bindings, Box::new(body)) })
}

/// A negation, a parenthesized formula, a constant, a quantifier, an atom, or an equality.
fn prefix(ts: &Vec<Token>, pos: &mut usize, scope: &mut Vec<String>, depth: usize) -> (r: Result<Formula, Error>)
    requires
        at(ts@, *old(pos) as int),
        1 <= depth <= MAX_NESTING,
        scope_words(old(scope)@),
    ensures
        at(ts@, *final(pos) as int),
        *old(pos) <= *final(pos),
        scope_words(final(scope)@),
        r is Ok ==> final(scope)@ == old(scope)@,
        r is Ok ==> *old(pos) < *final(pos),
        r matches Ok(f) ==> crate::syntax::formula_words(f),
        r is Ok <==> g_prefix(tokens_view(ts@), *old(pos) as int, scope_v(old(scope)@), depth as int) is Some,
        r matches Ok(f) ==> g_prefix(tokens_view(ts@), *old(pos) as int, scope_v(old(scope)@), depth as int)
            == Some((formula_v(f), *final(pos) as int)),
        r matches Err(e) ==> e.spec_message() == failure_message(
            tokens_view(ts@),
            f_prefix(tokens_view(ts@), *old(pos) as int, scope_v(old(scope)@), depth as int),
        ),
        input_error(r),
    decreases MAX_NESTING - depth, 3int,
{
    let ghost tv = tokens_view(ts@);
    let ghost p0 = *pos as int;
    proof {
        reveal_strlit("true");
        reveal_strlit("false");
        reveal_strlit("forall");
        reveal_strlit("exists");
    }
    if is_symbol(ts, *pos, Symbol::Not) {
        advance(ts, pos);
        let inner = formula(ts, pos, 4, scope, depth)?;
        return Ok(Formula::Not(Box::new(inner)));
    }
    if is_symbol(ts, *pos, Symbol::LParen) {
        advance(ts, pos);
        let inner = formula(ts, pos, 0, scope, depth)?;
        expect_symbol(ts, pos, Symbol::RParen)?;
        return Ok(inner);
    }
    if peek_is(ts, *pos, "true") {
        advance(ts, pos);
        let f = Formula::And(Vec::new());
        proof {
            assert(crate::syntax::formulas_words(Seq::<Formula>::empty()));
            assert(crate::grammar::formulas_v(Seq::<Formula>::empty()) =~= Seq::<FormulaV>::empty());
        }
        return Ok(f);
    }
    if peek_is(ts, *pos, "false") {
        advance(ts, pos);
        let f = Formula::Or(Vec::new());
        proof {
            assert(crate::syntax::formulas_words(Seq::<Formula>::empty()));
            assert(crate::grammar::formulas_v(Seq::<Formula>::empty()) =~= Seq::<FormulaV>::empty());
        }
        return Ok(f);
    }
    if peek_is(ts, *pos, "forall") || peek_is(ts, *pos, "exists") {
        return quantified(ts, pos, scope, depth);
    }
    match &ts[*pos].kind {
        TokenKind::Name(_) => application_or_equality(ts, pos, scope),
        _ => Err(error_here(ts, *pos, "expected a formula")),
    }
}

/// The binding power of the operator at the current token, and whether it groups rightward.
fn infix(ts: &Vec<Token>, pos: usize) -> (r: Option<(u8, Symbol, bool)>)
    requires
        pos < ts@.len(),
    ensures
        r is None <==> g_infix(tok(tokens_view(ts@), pos as int)) is None,
        r matches Some(x) ==> g_infix(tok(tokens_view(ts@), pos as int)) == Some((x.0 as int, x.1, x.2)),
        r matches Some(x) ==> 1 <= x.0 <= 3,
{
    match &ts[pos].kind {
        TokenKind::Symbol(Symbol::Implies) => Some((1, Symbol::Implies, true)),
        TokenKind::Symbol(Symbol::Or) => Some((2, Symbol::Or, false)),
        TokenKind::Symbol(Symbol::And) => Some((3, Symbol::And, false)),
        _ => None,
    }
}

/// A formula whose operators bind at least as tightly as `min_precedence`, nested at most
/// `MAX_NESTING` deep counting enclosing formulas (`depth` of them).
fn formula(ts: &Vec<Token>, pos: &mut usize, min_precedence: u8, scope: &mut Vec<String>, depth: usize) -> (r: Result<Formula, Error>)
    requires
        at(ts@, *old(pos) as int),
        depth <= MAX_NESTING,
        scope_words(old(scope)@),
    ensures
        at(ts@, *final(pos) as int),
        *old(pos) <= *final(pos),
        scope_words(final(scope)@),
        r is Ok ==> final(scope)@ == old(scope)@,
        r is Ok ==> *old(pos) < *final(pos),
        r matches Ok(f) ==> crate::syntax::formula_words(f),
        r is Ok <==> g_formula(tokens_view(ts@), *old(pos) as int, min_precedence as int, scope_v(old(scope)@), depth as int) is Some,
        r matches Ok(f) ==> g_formula(tokens_view(ts@), *old(pos) as int, min_precedence as int, scope_v(old(scope)@), depth as int)
            == Some((formula_v(f), *final(pos) as int)),
        r matches Err(e) ==> e.spec_message() == failure_message(
            tokens_view(ts@),
            f_formula(tokens_view(ts@), *old(pos) as int, min_precedence as int, scope_v(old(scope)@), depth as int),
        ),
        input_error(r),
    decreases MAX_NESTING - depth, 1int,
{
    let ghost tv = tokens_view(ts@);
    let ghost sv = scope_v(scope@);
    let ghost p0 = *pos as int;
    let nested = depth + 1;
    if nested > MAX_NESTING {
        return Err(error_here(ts, *pos, "maximum formula nesting depth exceeded"));
    }
    let mut left = prefix(ts, pos, scope, nested)?;
    loop
        invariant_except_break
            at(ts@, *pos as int),
            *old(pos) < *pos,
            scope_words(scope@),
            scope@ == old(scope)@,
            crate::syntax::formula_words(left),
            nested == depth + 1,
            nested <= MAX_NESTING,
            tv == tokens_view(ts@),
            sv == scope_v(old(scope)@),
            p0 == *old(pos) as int,
            g_formula(tv, p0, min_precedence as int, sv, depth as int)
                == g_tail(tv, *pos as int, min_precedence as int, sv, nested as int, formula_v(left)),
            f_formula(tv, p0, min_precedence as int, sv, depth as int)
                == f_tail(tv, *pos as int, min_precedence as int, sv, nested as int, formula_v(left)),
        ensures
            at(ts@, *pos as int),
            *old(pos) < *pos,
            scope_words(scope@),
            scope@ == old(scope)@,
            crate::syntax::formula_words(left),
            g_formula(tv, p0, min_precedence as int, sv, depth as int) == Some((formula_v(left), *pos as int)),
        decreases ts@.len() - *pos,
    {
        let ghost q = *pos as int;
        let (precedence, symbol, right_assoc) = match infix(ts, *pos) {
            Some(x) => x,
            None => break,
        };
        if precedence < min_precedence {
            break;
        }
        advance(ts, pos);
        let next_min: u8 = if right_assoc { precedence } else { precedence + 1 };
        let ghost lv = formula_v(left);
        let rhs = match formula(ts, pos, next_min, scope, nested) {
            Ok(f) => f,
            Err(e) => {
                return Err(e);
            },
        };
        let ghost rv = formula_v(rhs);
        left = match symbol {
            Symbol::And => merge_and(left, rhs),
            Symbol::Or => merge_or(left, rhs),
            _ => Formula::Implies(Box::new(left), Box::new(rhs)),
        };
        proof {
            assert(formula_v(left) == combine(symbol, lv, rv));
        }
    }
    Ok(left)
}


// ----------------------------------------------------------------------------------------------
// Sections
// ----------------------------------------------------------------------------------------------

/// `types` names, comma separated, then `;` (the keyword already consumed).
fn parse_types(ts: &Vec<Token>, pos: &mut usize) -> (r: Result<Vec<String>, Error>)
    requires
        at(ts@, *old(pos) as int),
    ensures
        at(ts@, *final(pos) as int),
        *old(pos) <= *final(pos),
        r is Ok ==> *old(pos) < *final(pos),
        r matches Ok(v) ==> forall|i: int| 0 <= i < v@.len() ==> is_word((#[trigger] v@[i])@),
        r is Ok <==> g_types(tokens_view(ts@), *old(pos) as int) is Some,
        r matches Ok(v) ==> g_types(tokens_view(ts@), *old(pos) as int) == Some((scope_v(v@), *final(pos) as int)),
        r matches Err(e) ==> e.spec_message() == failure_message(tokens_view(ts@), f_types(tokens_view(ts@), *old(pos) as int)),
        input_error(r),
{
    let ghost tv = tokens_view(ts@);
    let ghost p0 = *pos as int;
    let mut types: Vec<String> = Vec::new();
    if is_symbol(ts, *pos, Symbol::Semi) {
        advance(ts, pos);
        proof {
            assert(scope_v(types@) =~= Seq::<Seq<char>>::empty());
        }
        return Ok(types);
    }
    proof {
        assert(scope_v(types@) =~= Seq::<Seq<char>>::empty());
        assert(g_names(tv, p0) == names_after(Seq::<Seq<char>>::empty(), g_names(tv, p0))) by {
            match g_names(tv, p0) {
                Some((rest, q)) => {
                    assert(Seq::<Seq<char>>::empty() + rest =~= rest);
                },
                None => {},
            }
        }
    }
    loop
        invariant
            at(ts@, *pos as int),
            *old(pos) <= *pos,
            p0 == *old(pos) as int,
            tv == tokens_view(ts@),
            !sym(tv, p0, Symbol::Semi),
            forall|i: int| 0 <= i < types@.len() ==> is_word((#[trigger] types@[i])@),
            g_names(tv, p0) == names_after(scope_v(types@), g_names(tv, *pos as int)),
            f_names(tv, p0) == f_names(tv, *pos as int),
        decreases ts@.len() - *pos,
    {
        let ghost q0 = *pos as int;
        let name = match read_name(ts, pos) {
            Ok(n) => n,
            Err(e) => {
                proof {
                    assert(g_names(tv, q0) is None);
                }
                return Err(e);
            },
        };
        let ghost before = types@;
        let ghost n = name@;
        types.push(name);
        proof {
            assert(scope_v(types@) =~= scope_v(before).push(n));
        }
        if is_symbol(ts, *pos, Symbol::Comma) {
            proof {
                lemma_not_last(ts@, *pos as int);
            }
            advance(ts, pos);
            proof {
                match g_names(tv, *pos as int) {
                    Some((rest, q)) => {
                        assert(scope_v(before) + (seq![n] + rest) =~= scope_v(types@) + rest);
                    },
                    None => {},
                }
            }
            continue;
        }
        proof {
            assert(scope_v(before) + seq![n] =~= scope_v(types@));
        }
        expect_symbol(ts, pos, Symbol::Semi)?;
        return Ok(types);
    }
}

/// `{ name, ...: type; ... }`.
fn parse_objects(ts: &Vec<Token>, pos: &mut usize) -> (r: Result<Vec<Binding>, Error>)
    requires
        at(ts@, *old(pos) as int),
    ensures
        at(ts@, *final(pos) as int),
        *old(pos) <= *final(pos),
        r is Ok ==> *old(pos) < *final(pos),
        r matches Ok(v) ==> crate::syntax::bindings_words(v@),
        r is Ok <==> g_objects(tokens_view(ts@), *old(pos) as int) is Some,
        r matches Ok(v) ==> g_objects(tokens_view(ts@), *old(pos) as int) == Some((bindings_v(v@), *final(pos) as int)),
        r matches Err(e) ==> e.spec_message() == failure_message(tokens_view(ts@), f_objects(tokens_view(ts@), *old(pos) as int)),
        input_error(r),
{
    let ghost tv = tokens_view(ts@);
    expect_symbol(ts, pos, Symbol::LBrace)?;
    let ghost p1 = *pos as int;
    let mut result: Vec<Binding> = Vec::new();
    proof {
        assert(bindings_v(result@) =~= Seq::<(Seq<char>, Seq<char>)>::empty());
        assert(g_object_decls(tv, p1) == bindings_after(Seq::<(Seq<char>, Seq<char>)>::empty(), g_object_decls(tv, p1))) by {
            match g_object_decls(tv, p1) {
                Some((rest, q)) => {
                    assert(Seq::<(Seq<char>, Seq<char>)>::empty() + rest =~= rest);
                },
                None => {},
            }
        }
    }
    while !is_symbol(ts, *pos, Symbol::RBrace)
        invariant
            at(ts@, *pos as int),
            *old(pos) < *pos,
            p1 <= *pos,
            p1 == *old(pos) as int + 1,
            sym(tv, p1 - 1, Symbol::LBrace),
            tv == tokens_view(ts@),
            crate::syntax::bindings_words(result@),
            g_object_decls(tv, p1) == bindings_after(bindings_v(result@), g_object_decls(tv, *pos as int)),
            f_object_decls(tv, p1) == f_object_decls(tv, *pos as int),
        decreases ts@.len() - *pos,
    {
        let ghost q0 = *pos as int;
        if is_end(ts, *pos) {
            proof {
                assert(g_names(tv, q0) is None);
                assert(g_object_decls(tv, q0) is None);
            }
            return Err(error_here(ts, *pos, "unclosed objects block"));
        }
        let mut names: Vec<String> = Vec::new();
        let first = match read_name(ts, pos) {
            Ok(n) => n,
            Err(e) => {
                proof {
                    assert(g_names(tv, q0) is None);
                    assert(g_object_decls(tv, q0) is None);
                }
                return Err(e);
            },
        };
        let ghost n0 = first@;
        names.push(first);
        proof {
            assert(scope_v(names@) =~= seq![n0]);
            assert(g_names(tv, q0) == names_after(seq![n0], names_tail(tv, *pos as int))) by {
                match g_names(tv, *pos as int + 1) {
                    Some((rest, q)) => {},
                    None => {},
                }
            }
        }
        while is_symbol(ts, *pos, Symbol::Comma)
            invariant
                at(ts@, *pos as int),
                *old(pos) < *pos,
                q0 < *pos,
                0 <= q0,
                !sym(tv, q0, Symbol::RBrace),
                p1 == *old(pos) as int + 1,
                sym(tv, p1 - 1, Symbol::LBrace),
                g_object_decls(tv, p1) == bindings_after(bindings_v(result@), g_object_decls(tv, q0)),
                f_object_decls(tv, p1) == f_object_decls(tv, q0),
                tv == tokens_view(ts@),
                forall|i: int| 0 <= i < names@.len() ==> is_word((#[trigger] names@[i])@),
                g_names(tv, q0) == names_after(scope_v(names@), names_tail(tv, *pos as int)),
                f_names(tv, q0) == f_names_tail(tv, *pos as int),
            decreases ts@.len() - *pos,
        {
            proof {
                lemma_not_last(ts@, *pos as int);
            }
            advance(ts, pos);
            let ghost q1 = *pos as int;
            let next = match read_name(ts, pos) {
                Ok(n) => n,
                Err(e) => {
                    proof {
                        assert(g_names(tv, q1) is None);
                    }
                    return Err(e);
                },
            };
            let ghost before = names@;
            let ghost n = next@;
            names.push(next);
            proof {
                assert(scope_v(names@) =~= scope_v(before).push(n));
                match names_tail(tv, *pos as int) {
                    Some((rest, q)) => {
                        assert(scope_v(before) + (seq![n] + rest) =~= scope_v(names@) + rest);
                    },
                    None => {},
                }
            }
        }
        proof {
            assert(scope_v(names@) + Seq::<Seq<char>>::empty() =~= scope_v(names@));
        }
        let ghost q1 = *pos as int;
        assert(g_names(tv, q0) == Some((scope_v(names@), q1)));
        match expect_symbol(ts, pos, Symbol::Colon) {
            Ok(()) => {},
            Err(e) => {
                proof {
                    assert(g_object_decls(tv, q0) is None);
                }
                return Err(e);
            },
        }
        let ty = match read_name(ts, pos) {
            Ok(n) => n,
            Err(e) => {
                proof {
                    assert(g_object_decls(tv, q0) is None);
                }
                return Err(e);
            },
        };
        let ghost start = result@;
        let mut k: usize = 0;
        while k < names.len()
            invariant
                k <= names@.len(),
                at(ts@, *pos as int),
                *old(pos) < *pos,
                is_word(ty@),
                forall|i: int| 0 <= i < names@.len() ==> is_word((#[trigger] names@[i])@),
                crate::syntax::bindings_words(result@),
                bindings_v(result@) == bindings_v(start) + typed(scope_v(names@).subrange(0, k as int), ty@),
            decreases names.len() - k,
        {
            let ghost before = result@;
            result.push(Binding { name: crate::text::copy_string(&names[k]), ty: crate::text::copy_string(&ty) });
            proof {
                assert forall|i: int| 0 <= i < result@.len() implies is_word((#[trigger] result@[i]).name@) && is_word(result@[i].ty@) by {
                    if i < before.len() {
                        assert(result@[i] == before[i]);
                    }
                }
                assert(bindings_v(result@) =~= bindings_v(before).push((names@[k as int]@, ty@)));
                assert(typed(scope_v(names@).subrange(0, k as int + 1), ty@) =~= typed(scope_v(names@).subrange(0, k as int), ty@).push((names@[k as int]@, ty@)));
            }
            k = k + 1;
        }
        proof {
            assert(scope_v(names@).subrange(0, names@.len() as int) =~= scope_v(names@));
        }
        match expect_symbol(ts, pos, Symbol::Semi) {
            Ok(()) => {},
            Err(e) => {
                proof {
                    assert(g_object_decls(tv, q0) is None);
                }
                return Err(e);
            },
        }
        proof {
            match g_object_decls(tv, *pos as int) {
                Some((rest, q)) => {
                    assert(bindings_v(start) + (typed(scope_v(names@), ty@) + rest) =~= bindings_v(result@) + rest);
                },
                None => {},
            }
        }
    }
    proof {
        assert(bindings_v(result@) + Seq::<(Seq<char>, Seq<char>)>::empty() =~= bindings_v(result@));
    }
    advance(ts, pos);
    Ok(result)
}

/// `{ Name(type, ...); ... }`.
fn parse_predicates(ts: &Vec<Token>, pos: &mut usize) -> (r: Result<Vec<Predicate>, Error>)
    requires
        at(ts@, *old(pos) as int),
    ensures
        at(ts@, *final(pos) as int),
        *old(pos) <= *final(pos),
        r is Ok ==> *old(pos) < *final(pos),
        r matches Ok(v) ==> forall|i: int| 0 <= i < v@.len() ==> is_word((#[trigger] v@[i]).name@)
            && forall|j: int| 0 <= j < v@[i].parameters@.len() ==> is_word((#[trigger] v@[i].parameters@[j])@),
        r is Ok <==> g_predicates(tokens_view(ts@), *old(pos) as int) is Some,
        r matches Ok(v) ==> g_predicates(tokens_view(ts@), *old(pos) as int)
            == Some((v@.map_values(|x: Predicate| predicate_v(x)), *final(pos) as int)),
        r matches Err(e) ==> e.spec_message() == failure_message(tokens_view(ts@), f_predicates(tokens_view(ts@), *old(pos) as int)),
        input_error(r),
{
    let ghost tv = tokens_view(ts@);
    expect_symbol(ts, pos, Symbol::LBrace)?;
    let ghost p1 = *pos as int;
    let mut result: Vec<Predicate> = Vec::new();
    proof {
        assert(result@.map_values(|x: Predicate| predicate_v(x)) =~= Seq::<(Seq<char>, Seq<Seq<char>>)>::empty());
        assert(g_predicate_decls(tv, p1) == decls_after(Seq::<(Seq<char>, Seq<Seq<char>>)>::empty(), g_predicate_decls(tv, p1))) by {
            match g_predicate_decls(tv, p1) {
                Some((rest, q)) => {
                    assert(Seq::<(Seq<char>, Seq<Seq<char>>)>::empty() + rest =~= rest);
                },
                None => {},
            }
        }
    }
    while !is_symbol(ts, *pos, Symbol::RBrace)
        invariant
            at(ts@, *pos as int),
            *old(pos) < *pos,
            p1 <= *pos,
            p1 == *old(pos) as int + 1,
            sym(tv, p1 - 1, Symbol::LBrace),
            tv == tokens_view(ts@),
            forall|i: int| 0 <= i < result@.len() ==> is_word((#[trigger] result@[i]).name@)
                && forall|j: int| 0 <= j < result@[i].parameters@.len() ==> is_word((#[trigger] result@[i].parameters@[j])@),
            g_predicate_decls(tv, p1) == decls_after(result@.map_values(|x: Predicate| predicate_v(x)), g_predicate_decls(tv, *pos as int)),
            f_predicate_decls(tv, p1) == f_predicate_decls(tv, *pos as int),
        decreases ts@.len() - *pos,
    {
        let ghost q0 = *pos as int;
        if is_end(ts, *pos) {
            proof {
                assert(g_predicate_decls(tv, q0) is None);
            }
            return Err(error_here(ts, *pos, "unclosed predicates block"));
        }
        let name = match read_name(ts, pos) {
            Ok(n) => n,
            Err(e) => {
                proof {
                    assert(g_predicate_decls(tv, q0) is None);
                }
                return Err(e);
            },
        };
        match expect_symbol(ts, pos, Symbol::LParen) {
            Ok(()) => {},
            Err(e) => {
                proof {
                    assert(g_predicate_decls(tv, q0) is None);
                }
                return Err(e);
            },
        }
        let ghost q2 = *pos as int;
        let mut parameters: Vec<String> = Vec::new();
        if !is_symbol(ts, *pos, Symbol::RParen) {
            proof {
                assert(scope_v(parameters@) =~= Seq::<Seq<char>>::empty());
                assert(g_names(tv, q2) == names_after(Seq::<Seq<char>>::empty(), g_names(tv, q2))) by {
                    match g_names(tv, q2) {
                        Some((rest, q)) => {
                            assert(Seq::<Seq<char>>::empty() + rest =~= rest);
                        },
                        None => {},
                    }
                }
            }
            loop
                invariant_except_break
                    at(ts@, *pos as int),
                    *old(pos) < *pos,
                    q0 < *pos,
                    q2 <= *pos,
                    q2 == q0 + 2,
                    0 <= q0,
                    !sym(tv, q0, Symbol::RBrace),
                    p1 == *old(pos) as int + 1,
                    sym(tv, p1 - 1, Symbol::LBrace),
                    g_predicate_decls(tv, p1) == decls_after(result@.map_values(|x: Predicate| predicate_v(x)), g_predicate_decls(tv, q0)),
                    f_predicate_decls(tv, p1) == f_predicate_decls(tv, q0),
                    name_at(tv, q0) is Some,
                    sym(tv, q0 + 1, Symbol::LParen),
                    !sym(tv, q2, Symbol::RParen),
                    tv == tokens_view(ts@),
                    forall|i: int| 0 <= i < parameters@.len() ==> is_word((#[trigger] parameters@[i])@),
                    g_names(tv, q2) == names_after(scope_v(parameters@), g_names(tv, *pos as int)),
                    f_names(tv, q2) == f_names(tv, *pos as int),
                ensures
                    at(ts@, *pos as int),
                    *old(pos) < *pos,
                    q2 < *pos,
                    forall|i: int| 0 <= i < parameters@.len() ==> is_word((#[trigger] parameters@[i])@),
                    g_names(tv, q2) == Some((scope_v(parameters@), *pos as int)),
                decreases ts@.len() - *pos,
            {
                let ghost q3 = *pos as int;
                let p = match read_name(ts, pos) {
                    Ok(n) => n,
                    Err(e) => {
                        proof {
                            assert(g_names(tv, q3) is None);
                            assert(g_names(tv, q2) is None);
                            assert(g_predicate_decls(tv, q0) is None);
                        }
                        return Err(e);
                    },
                };
                let ghost before = parameters@;
                let ghost n = p@;
                parameters.push(p);
                proof {
                    assert(scope_v(parameters@) =~= scope_v(before).push(n));
                }
                if is_symbol(ts, *pos, Symbol::Comma) {
                    proof {
                        lemma_not_last(ts@, *pos as int);
                    }
                    advance(ts, pos);
                    proof {
                        match g_names(tv, *pos as int) {
                            Some((rest, q)) => {
                                assert(scope_v(before) + (seq![n] + rest) =~= scope_v(parameters@) + rest);
                            },
                            None => {},
                        }
                    }
                    continue;
                }
                proof {
                    assert(scope_v(before) + seq![n] =~= scope_v(parameters@));
                }
                break;
            }
        } else {
            proof {
                assert(scope_v(parameters@) =~= Seq::<Seq<char>>::empty());
            }
        }
        match expect_symbol(ts, pos, Symbol::RParen) {
            Ok(()) => {},
            Err(e) => {
                proof {
                    assert(g_predicate_decls(tv, q0) is None);
                }
                return Err(e);
            },
        }
        match expect_symbol(ts, pos, Symbol::Semi) {
            Ok(()) => {},
            Err(e) => {
                proof {
                    assert(g_predicate_decls(tv, q0) is None);
                }
                return Err(e);
            },
        }
        let ghost before = result@;
        let pred = Predicate { name, parameters };
        let ghost pv = predicate_v(pred);
        result.push(pred);
        proof {
            assert forall|i: int| 0 <= i < result@.len() implies is_word((#[trigger] result@[i]).name@)
                && forall|j: int| 0 <= j < result@[i].parameters@.len() ==> is_word((#[trigger] result@[i].parameters@[j])@) by {
                if i < before.len() {
                    assert(result@[i] == before[i]);
                }
            }
            assert(pv.1 =~= scope_v(pred.parameters@));
            assert(result@.map_values(|x: Predicate| predicate_v(x)) =~= before.map_values(|x: Predicate| predicate_v(x)).push(pv));
            match g_predicate_decls(tv, *pos as int) {
                Some((rest, q)) => {
                    assert(before.map_values(|x: Predicate| predicate_v(x)) + (seq![pv] + rest)
                        =~= result@.map_values(|x: Predicate| predicate_v(x)) + rest);
                },
                None => {},
            }
        }
    }
    proof {
        assert(result@.map_values(|x: Predicate| predicate_v(x)) + Seq::<(Seq<char>, Seq<Seq<char>>)>::empty()
            =~= result@.map_values(|x: Predicate| predicate_v(x)));
    }
    advance(ts, pos);
    Ok(result)
}

/// Adds the positive ground atoms of a conjunction to `state`; anything else is an error
/// reported at the token before `pos`.
fn collect_initial(ts: &Vec<Token>, pos: usize, f: &Formula, state: &mut State) -> (r: Result<(), Error>)
    requires
        0 < pos < ts@.len(),
        crate::syntax::formula_words(*f),
        crate::syntax::state_words(old(state)@),
    ensures
        crate::syntax::state_words(final(state)@),
        r is Ok <==> facts_of(formula_v(*f)) is Some,
        r is Ok ==> final(state)@ == old(state)@ + facts_of(formula_v(*f))->0,
        r matches Err(e) ==> e.spec_message() == message_at(
            ts@[pos - 1].line as nat,
            ts@[pos - 1].column as nat,
            facts_failure(formula_v(*f)),
        ),
        input_error(r),
    decreases f, 1int,
{
    match f {
        Formula::And(parts) => {
            proof {
                crate::syntax::lemma_formulas_words(parts@);
                assert(formula_v(*f) == FormulaV::And(crate::grammar::formulas_v(parts@)));
            }
            collect_initial_all(ts, pos, parts, state)
        },
        Formula::Atom(atom) => {
            let ghost tv = crate::grammar::terms_v(atom.terms@);
            let mut arguments: Vec<String> = Vec::new();
            let mut i: usize = 0;
            while i < atom.terms.len()
                invariant
                    i <= atom.terms@.len(),
                    0 < pos < ts@.len(),
                    tv == crate::grammar::terms_v(atom.terms@),
                    *f == Formula::Atom(*atom),
                    crate::syntax::atom_words(*atom),
                    crate::syntax::state_words(state@),
                    arguments@.len() == i,
                    forall|j: int| 0 <= j < arguments@.len() ==> is_word((#[trigger] arguments@[j])@),
                    forall|j: int| 0 <= j < i ==> #[trigger] tv[j] == TermV::Obj(arguments@[j]@),
                decreases atom.terms.len() - i,
            {
                match &atom.terms[i] {
                    Term::Constant(name) => {
                        proof {
                            assert(crate::syntax::term_words(atom.terms@[i as int]));
                        }
                        let ghost before = arguments@;
                        arguments.push(crate::text::copy_string(name));
                        proof {
                            assert forall|j: int| 0 <= j < i + 1 implies #[trigger] tv[j] == TermV::Obj(arguments@[j]@) by {
                                if j < i {
                                    assert(arguments@[j] == before[j]);
                                }
                            }
                        }
                    },
                    Term::Variable(_) => {
                        proof {
                            assert(!(tv[i as int] is Obj));
                            assert(!crate::grammar::ground_terms(tv));
                            assert(formula_v(*f) == FormulaV::Atom(atom.predicate@, tv));
                        }
                        return Err(error_previous(ts, pos, "initial facts cannot contain variables"));
                    },
                }
                i = i + 1;
            }
            let fact = GroundAtom { predicate: crate::text::copy_string(&atom.predicate), arguments };
            let ghost old_state = state@;
            proof {
                assert forall|j: int| 0 <= j < fact@.1.len() implies is_word(#[trigger] fact@.1[j]) by {
                    assert(fact@.1[j] == fact.arguments@[j]@);
                }
                assert(crate::grammar::ground_terms(tv));
                assert(crate::grammar::object_names(tv) =~= fact@.1);
            }
            state.insert(fact);
            proof {
                let st = set![fact@];
                assert(facts_of(formula_v(*f)) == Some(st));
                assert(state@ =~= old_state + st);
            }
            Ok(())
        },
        _ => Err(error_previous(ts, pos, "init supports only positive atoms joined by conjunction")),
    }
}

fn collect_initial_all(ts: &Vec<Token>, pos: usize, parts: &Vec<Formula>, state: &mut State) -> (r: Result<(), Error>)
    requires
        0 < pos < ts@.len(),
        forall|j: int| 0 <= j < parts@.len() ==> crate::syntax::formula_words(#[trigger] parts@[j]),
        crate::syntax::state_words(old(state)@),
    ensures
        crate::syntax::state_words(final(state)@),
        r is Ok <==> facts_all(crate::grammar::formulas_v(parts@)) is Some,
        r is Ok ==> final(state)@ == old(state)@ + facts_all(crate::grammar::formulas_v(parts@))->0,
        r matches Err(e) ==> e.spec_message() == message_at(
            ts@[pos - 1].line as nat,
            ts@[pos - 1].column as nat,
            facts_all_failure(crate::grammar::formulas_v(parts@)),
        ),
        input_error(r),
    decreases parts, 0int,
{
    let ghost fv = crate::grammar::formulas_v(parts@);
    let ghost acc = Set::<crate::model::AtomV>::empty();
    proof {
        crate::grammar::lemma_formulas_v(parts@);
        assert(fv.subrange(0, fv.len() as int) =~= fv);
        assert(state@ =~= old(state)@ + acc);
        assert(facts_all(fv) == facts_after(acc, facts_all(fv.subrange(0, fv.len() as int)))) by {
            match facts_all(fv) {
                Some(x) => {
                    assert(acc + x =~= x);
                },
                None => {},
            }
        }
    }
    let mut i: usize = 0;
    while i < parts.len()
        invariant
            i <= parts@.len(),
            pos < ts@.len(),
            fv == crate::grammar::formulas_v(parts@),
            fv.len() == parts@.len(),
            forall|j: int| 0 <= j < parts@.len() ==> #[trigger] fv[j] == formula_v(parts@[j]),
            forall|j: int| 0 <= j < parts@.len() ==> crate::syntax::formula_words(#[trigger] parts@[j]),
            crate::syntax::state_words(state@),
            state@ == old(state)@ + acc,
            facts_all(fv) == facts_after(acc, facts_all(fv.subrange(i as int, fv.len() as int))),
            0 < pos,
            facts_all_failure(fv) == facts_all_failure(fv.subrange(i as int, fv.len() as int)),
        decreases parts.len() - i,
    {
        proof {
            vstd::std_specs::vec::axiom_vec_index_decreases(*parts, i as int);
        }
        let ghost rest = fv.subrange(i as int, fv.len() as int);
        let ghost before = state@;
        proof {
            assert(rest[0] == fv[i as int]);
            assert(rest.subrange(1, rest.len() as int) =~= fv.subrange(i as int + 1, fv.len() as int));
        }
        match collect_initial(ts, pos, &parts[i], state) {
            Ok(()) => {},
            Err(e) => {
                return Err(e);
            },
        }
        proof {
            let x = facts_of(fv[i as int])->0;
            assert(state@ == before + x);
            assert(state@ =~= old(state)@ + (acc + x));
            match facts_all(fv.subrange(i as int + 1, fv.len() as int)) {
                Some(y) => {
                    assert(acc + (x + y) =~= (acc + x) + y);
                },
                None => {},
            }
            acc = acc + x;
        }
        i = i + 1;
    }
    proof {
        assert(fv.subrange(fv.len() as int, fv.len() as int) =~= Seq::<FormulaV>::empty());
        assert(acc + Set::<crate::model::AtomV>::empty() =~= acc);
    }
    Ok(())
}

/// Splits a conjunction of atoms and negated atoms into additions and deletions; anything
/// else is an error reported at the token before `pos`.
fn collect_effect(ts: &Vec<Token>, pos: usize, f: &Formula, add: &mut Vec<Atom>, delete: &mut Vec<Atom>) -> (r: Result<(), Error>)
    requires
        0 < pos < ts@.len(),
        crate::syntax::formula_words(*f),
        forall|j: int| 0 <= j < old(add)@.len() ==> crate::syntax::atom_words(#[trigger] old(add)@[j]),
        forall|j: int| 0 <= j < old(delete)@.len() ==> crate::syntax::atom_words(#[trigger] old(delete)@[j]),
    ensures
        forall|j: int| 0 <= j < final(add)@.len() ==> crate::syntax::atom_words(#[trigger] final(add)@[j]),
        forall|j: int| 0 <= j < final(delete)@.len() ==> crate::syntax::atom_words(#[trigger] final(delete)@[j]),
        r is Ok <==> effects_of(formula_v(*f)) is Some,
        r is Ok ==> effects_of(formula_v(*f)) == Some((
            atoms_v(final(add)@).subrange(old(add)@.len() as int, final(add)@.len() as int),
            atoms_v(final(delete)@).subrange(old(delete)@.len() as int, final(delete)@.len() as int),
        )),
        r is Ok ==> old(add)@.len() <= final(add)@.len() && old(delete)@.len() <= final(delete)@.len()
            && final(add)@.subrange(0, old(add)@.len() as int) == old(add)@
            && final(delete)@.subrange(0, old(delete)@.len() as int) == old(delete)@,
        r matches Err(e) ==> e.spec_message() == message_at(
            ts@[pos - 1].line as nat,
            ts@[pos - 1].column as nat,
            effects_failure(formula_v(*f)),
        ),
        input_error(r),
    decreases f, 1int,
{
    match f {
        Formula::And(parts) => {
            proof {
                crate::syntax::lemma_formulas_words(parts@);
                assert(formula_v(*f) == FormulaV::And(crate::grammar::formulas_v(parts@)));
                assert(effects_of(formula_v(*f)) == effects_all(crate::grammar::formulas_v(parts@)));
            }
            let r = collect_effect_all(ts, pos, parts, add, delete);
            proof {
                assert(r is Ok <==> effects_all(crate::grammar::formulas_v(parts@)) is Some);
                assert(r is Ok <==> effects_of(formula_v(*f)) is Some);
            }
            r
        },
        Formula::Atom(atom) => {
            let ghost before = add@;
            let c = crate::syntax::copy_atom(atom);
            proof {
                assert(crate::grammar::terms_v(c.terms@) =~= crate::grammar::terms_v(atom.terms@));
            }
            add.push(c);
            proof {
                assert forall|j: int| 0 <= j < add@.len() implies crate::syntax::atom_words(#[trigger] add@[j]) by {
                    if j < before.len() {
                        assert(add@[j] == before[j]);
                    }
                }
                assert(atoms_v(add@).subrange(before.len() as int, add@.len() as int) =~= seq![atom_v(*atom)]);
                assert(atoms_v(delete@).subrange(delete@.len() as int, delete@.len() as int) =~= Seq::<(Seq<char>, Seq<TermV>)>::empty());
                assert(add@.subrange(0, before.len() as int) =~= before);
                assert(delete@.subrange(0, delete@.len() as int) =~= delete@);
            }
            Ok(())
        },
        Formula::Not(inner) => match &**inner {
            Formula::Atom(atom) => {
                proof {
                    assert(crate::syntax::formula_words(**inner));
                }
                let ghost before = delete@;
                let c = crate::syntax::copy_atom(atom);
                proof {
                    assert(crate::grammar::terms_v(c.terms@) =~= crate::grammar::terms_v(atom.terms@));
                }
                delete.push(c);
                proof {
                    assert forall|j: int| 0 <= j < delete@.len() implies crate::syntax::atom_words(#[trigger] delete@[j]) by {
                        if j < before.len() {
                            assert(delete@[j] == before[j]);
                        }
                    }
                    assert(atoms_v(delete@).subrange(before.len() as int, delete@.len() as int) =~= seq![atom_v(*atom)]);
                    assert(atoms_v(add@).subrange(add@.len() as int, add@.len() as int) =~= Seq::<(Seq<char>, Seq<TermV>)>::empty());
                    assert(delete@.subrange(0, before.len() as int) =~= before);
                    assert(add@.subrange(0, add@.len() as int) =~= add@);
                    assert(formula_v(**inner) == FormulaV::Atom(atom.predicate@, crate::grammar::terms_v(atom.terms@)));
                    assert(formula_v(*f) == FormulaV::Not(Box::new(formula_v(**inner))));
                }
                Ok(())
            },
            _ => {
                proof {
                    assert(formula_v(*f) == FormulaV::Not(Box::new(formula_v(**inner))));
                    assert(!(formula_v(**inner) is Atom));
                }
                Err(error_previous(ts, pos, "effects may negate atoms only"))
            },
        },
        _ => Err(error_previous(ts, pos, "effects support only atoms, negated atoms, and conjunctions")),
    }
}

fn collect_effect_all(ts: &Vec<Token>, pos: usize, parts: &Vec<Formula>, add: &mut Vec<Atom>, delete: &mut Vec<Atom>) -> (r: Result<(), Error>)
    requires
        0 < pos < ts@.len(),
        forall|j: int| 0 <= j < parts@.len() ==> crate::syntax::formula_words(#[trigger] parts@[j]),
        forall|j: int| 0 <= j < old(add)@.len() ==> crate::syntax::atom_words(#[trigger] old(add)@[j]),
        forall|j: int| 0 <= j < old(delete)@.len() ==> crate::syntax::atom_words(#[trigger] old(delete)@[j]),
    ensures
        forall|j: int| 0 <= j < final(add)@.len() ==> crate::syntax::atom_words(#[trigger] final(add)@[j]),
        forall|j: int| 0 <= j < final(delete)@.len() ==> crate::syntax::atom_words(#[trigger] final(delete)@[j]),
        r is Ok <==> effects_all(crate::grammar::formulas_v(parts@)) is Some,
        r is Ok ==> effects_all(crate::grammar::formulas_v(parts@)) == Some((
            atoms_v(final(add)@).subrange(old(add)@.len() as int, final(add)@.len() as int),
            atoms_v(final(delete)@).subrange(old(delete)@.len() as int, final(delete)@.len() as int),
        )),
        r is Ok ==> old(add)@.len() <= final(add)@.len() && old(delete)@.len() <= final(delete)@.len()
            && final(add)@.subrange(0, old(add)@.len() as int) == old(add)@
            && final(delete)@.subrange(0, old(delete)@.len() as int) == old(delete)@,
        r matches Err(e) ==> e.spec_message() == message_at(
            ts@[pos - 1].line as nat,
            ts@[pos - 1].column as nat,
            effects_all_failure(crate::grammar::formulas_v(parts@)),
        ),
        input_error(r),
    decreases parts, 0int,
{
    let ghost fv = crate::grammar::formulas_v(parts@);
    let ghost a0 = old(add)@;
    let ghost d0 = old(delete)@;
    let ghost empty = Seq::<(Seq<char>, Seq<TermV>)>::empty();
    proof {
        crate::grammar::lemma_formulas_v(parts@);
        assert(fv.subrange(0, fv.len() as int) =~= fv);
        assert(atoms_v(add@).subrange(a0.len() as int, add@.len() as int) =~= empty);
        assert(atoms_v(delete@).subrange(d0.len() as int, delete@.len() as int) =~= empty);
        assert(effects_all(fv) == effects_after((empty, empty), effects_all(fv.subrange(0, fv.len() as int)))) by {
            match effects_all(fv) {
                Some((x, y)) => {
                    assert(empty + x =~= x);
                    assert(empty + y =~= y);
                },
                None => {},
            }
        }
        assert(add@.subrange(0, a0.len() as int) =~= a0);
        assert(delete@.subrange(0, d0.len() as int) =~= d0);
    }
    let mut i: usize = 0;
    while i < parts.len()
        invariant
            i <= parts@.len(),
            pos < ts@.len(),
            fv == crate::grammar::formulas_v(parts@),
            fv.len() == parts@.len(),
            forall|j: int| 0 <= j < parts@.len() ==> #[trigger] fv[j] == formula_v(parts@[j]),
            forall|j: int| 0 <= j < parts@.len() ==> crate::syntax::formula_words(#[trigger] parts@[j]),
            forall|j: int| 0 <= j < add@.len() ==> crate::syntax::atom_words(#[trigger] add@[j]),
            forall|j: int| 0 <= j < delete@.len() ==> crate::syntax::atom_words(#[trigger] delete@[j]),
            a0 == old(add)@,
            d0 == old(delete)@,
            a0.len() <= add@.len(),
            d0.len() <= delete@.len(),
            add@.subrange(0, a0.len() as int) == a0,
            delete@.subrange(0, d0.len() as int) == d0,
            effects_all(fv) == effects_after(
                (atoms_v(add@).subrange(a0.len() as int, add@.len() as int), atoms_v(delete@).subrange(d0.len() as int, delete@.len() as int)),
                effects_all(fv.subrange(i as int, fv.len() as int)),
            ),
            0 < pos,
            effects_all_failure(fv) == effects_all_failure(fv.subrange(i as int, fv.len() as int)),
        decreases parts.len() - i,
    {
        proof {
            vstd::std_specs::vec::axiom_vec_index_decreases(*parts, i as int);
        }
        let ghost rest = fv.subrange(i as int, fv.len() as int);
        let ghost add_before = add@;
        let ghost delete_before = delete@;
        proof {
            assert(rest[0] == fv[i as int]);
            assert(rest.subrange(1, rest.len() as int) =~= fv.subrange(i as int + 1, fv.len() as int));
        }
        match collect_effect(ts, pos, &parts[i], add, delete) {
            Ok(()) => {},
            Err(e) => {
                return Err(e);
            },
        }
        proof {
            let (x, y) = effects_of(fv[i as int])->0;
            let pa = atoms_v(add_before).subrange(a0.len() as int, add_before.len() as int);
            let pd = atoms_v(delete_before).subrange(d0.len() as int, delete_before.len() as int);
            assert(atoms_v(add@).subrange(a0.len() as int, add@.len() as int) =~= pa + x) by {
                assert(add@.subrange(0, add_before.len() as int) == add_before);
                assert forall|k: int| 0 <= k < add_before.len() implies #[trigger] add@[k] == add_before[k] by {
                    assert(add@.subrange(0, add_before.len() as int)[k] == add@[k]);
                }
            }
            assert(atoms_v(delete@).subrange(d0.len() as int, delete@.len() as int) =~= pd + y) by {
                assert(delete@.subrange(0, delete_before.len() as int) == delete_before);
                assert forall|k: int| 0 <= k < delete_before.len() implies #[trigger] delete@[k] == delete_before[k] by {
                    assert(delete@.subrange(0, delete_before.len() as int)[k] == delete@[k]);
                }
            }
            assert(add@.subrange(0, a0.len() as int) =~= a0) by {
                assert forall|k: int| 0 <= k < a0.len() implies #[trigger] add@[k] == a0[k] by {
                    assert(add@.subrange(0, add_before.len() as int)[k] == add@[k]);
                    assert(add_before.subrange(0, a0.len() as int)[k] == add_before[k]);
                }
            }
            assert(delete@.subrange(0, d0.len() as int) =~= d0) by {
                assert forall|k: int| 0 <= k < d0.len() implies #[trigger] delete@[k] == d0[k] by {
                    assert(delete@.subrange(0, delete_before.len() as int)[k] == delete@[k]);
                    assert(delete_before.subrange(0, d0.len() as int)[k] == delete_before[k]);
                }
            }
            match effects_all(fv.subrange(i as int + 1, fv.len() as int)) {
                Some((x2, y2)) => {
                    assert(pa + (x + x2) =~= (pa + x) + x2);
                    assert(pd + (y + y2) =~= (pd + y) + y2);
                },
                None => {},
            }
        }
        i = i + 1;
    }
    proof {
        assert(fv.subrange(fv.len() as int, fv.len() as int) =~= Seq::<FormulaV>::empty());
        let pa = atoms_v(add@).subrange(a0.len() as int, add@.len() as int);
        let pd = atoms_v(delete@).subrange(d0.len() as int, delete@.len() as int);
        assert(pa + empty =~= pa);
        assert(pd + empty =~= pd);
    }
    Ok(())
}


/// Whether every name an action declares or mentions is a normalized identifier.
pub open spec fn action_words(a: Action) -> bool {
    &&& is_word(a.name@)
    &&& crate::syntax::bindings_words(a.parameters@)
    &&& crate::syntax::formula_words(a.precondition)
    &&& forall|j: int| 0 <= j < a.add@.len() ==> crate::syntax::atom_words(#[trigger] a.add@[j])
    &&& forall|j: int| 0 <= j < a.delete@.len() ==> crate::syntax::atom_words(#[trigger] a.delete@[j])
}

/// The precondition read so far, as a value.
pub open spec fn pre_v(p: Option<Formula>) -> Option<FormulaV> {
    match p {
        Some(f) => Some(formula_v(f)),
        None => None,
    }
}

/// The effect read so far, as a value.
pub open spec fn effect_v(e: Option<(Vec<Atom>, Vec<Atom>)>) -> Option<(Seq<(Seq<char>, Seq<TermV>)>, Seq<(Seq<char>, Seq<TermV>)>)> {
    match e {
        Some((a, d)) => Some((atoms_v(a@), atoms_v(d@))),
        None => None,
    }
}

/// `Name(param: type, ...) { pre: formula; effect: effect; }` (the keyword already consumed).
#[verifier::rlimit(40)]
fn parse_action(ts: &Vec<Token>, pos: &mut usize) -> (r: Result<Action, Error>)
    requires
        at(ts@, *old(pos) as int),
    ensures
        at(ts@, *final(pos) as int),
        *old(pos) <= *final(pos),
        r is Ok ==> *old(pos) < *final(pos),
        r matches Ok(a) ==> action_words(a),
        r is Ok <==> g_action(tokens_view(ts@), *old(pos) as int) is Some,
        r matches Ok(a) ==> g_action(tokens_view(ts@), *old(pos) as int) == Some((action_v(a), *final(pos) as int)),
        r matches Err(e) ==> e.spec_message() == failure_message(tokens_view(ts@), f_action(tokens_view(ts@), *old(pos) as int)),
        input_error(r),
{
    let ghost tv = tokens_view(ts@);
    let ghost p0 = *pos as int;
    let name = read_name(ts, pos)?;
    expect_symbol(ts, pos, Symbol::LParen)?;
    let ghost p2 = *pos as int;
    let mut parameters: Vec<Binding> = Vec::new();
    let mut scope: Vec<String> = Vec::new();
    proof {
        assert(bindings_v(parameters@) =~= Seq::<(Seq<char>, Seq<char>)>::empty());
        assert(scope_v(scope@) =~= binding_names(bindings_v(parameters@)));
    }
    if !is_symbol(ts, *pos, Symbol::RParen) {
        proof {
            assert(g_bindings(tv, p2) == bindings_after(Seq::<(Seq<char>, Seq<char>)>::empty(), g_bindings(tv, p2))) by {
                match g_bindings(tv, p2) {
                    Some((rest, q)) => {
                        assert(Seq::<(Seq<char>, Seq<char>)>::empty() + rest =~= rest);
                    },
                    None => {},
                }
            }
        }
        loop
            invariant_except_break
                at(ts@, *pos as int),
                *old(pos) <= *pos,
                p2 <= *pos,
                p2 == p0 + 2,
                p0 == *old(pos) as int,
                tv == tokens_view(ts@),
                name_at(tv, p0) == Some(name@),
                sym(tv, p0 + 1, Symbol::LParen),
                !sym(tv, p2, Symbol::RParen),
                crate::syntax::bindings_words(parameters@),
                scope_words(scope@),
                scope_v(scope@) == binding_names(bindings_v(parameters@)),
                g_bindings(tv, p2) == bindings_after(bindings_v(parameters@), g_bindings(tv, *pos as int)),
                f_bindings(tv, p2) == f_bindings(tv, *pos as int),
            ensures
                at(ts@, *pos as int),
                *old(pos) <= *pos,
                p2 < *pos,
                crate::syntax::bindings_words(parameters@),
                scope_words(scope@),
                scope_v(scope@) == binding_names(bindings_v(parameters@)),
                g_bindings(tv, p2) == Some((bindings_v(parameters@), *pos as int)),
            decreases ts@.len() - *pos,
        {
            let ghost q0 = *pos as int;
            let variable = match read_name(ts, pos) {
                Ok(n) => n,
                Err(e) => {
                    proof {
                        assert(g_bindings(tv, q0) is None);
                    }
                    return Err(e);
                },
            };
            match expect_symbol(ts, pos, Symbol::Colon) {
                Ok(()) => {},
                Err(e) => {
                    proof {
                        assert(g_bindings(tv, q0) is None);
                    }
                    return Err(e);
                },
            }
            let ty = match read_name(ts, pos) {
                Ok(n) => n,
                Err(e) => {
                    proof {
                        assert(g_bindings(tv, q0) is None);
                    }
                    return Err(e);
                },
            };
            let ghost before = parameters@;
            let ghost scope_before = scope@;
            scope.push(crate::text::copy_string(&variable));
            let b = Binding { name: variable, ty };
            let ghost bv = binding_v(b);
            parameters.push(b);
            proof {
                assert forall|i: int| 0 <= i < parameters@.len() implies is_word((#[trigger] parameters@[i]).name@) && is_word(parameters@[i].ty@) by {
                    if i < before.len() {
                        assert(parameters@[i] == before[i]);
                    }
                }
                assert forall|i: int| 0 <= i < scope@.len() implies is_word((#[trigger] scope@[i])@) by {
                    if i < scope_before.len() {
                        assert(scope@[i] == scope_before[i]);
                    }
                }
                assert(bindings_v(parameters@) =~= bindings_v(before).push(bv));
                assert(binding_names(bindings_v(parameters@)) =~= binding_names(bindings_v(before)).push(bv.0));
                assert(scope_v(scope@) =~= scope_v(scope_before).push(bv.0));
            }
            if is_symbol(ts, *pos, Symbol::Comma) {
                proof {
                    lemma_not_last(ts@, *pos as int);
                }
                advance(ts, pos);
                proof {
                    match g_bindings(tv, *pos as int) {
                        Some((rest, q)) => {
                            assert(bindings_v(before) + (seq![bv] + rest) =~= bindings_v(parameters@) + rest);
                        },
                        None => {},
                    }
                }
                continue;
            }
            proof {
                assert(bindings_v(before) + seq![bv] =~= bindings_v(parameters@));
            }
            break;
        }
    }
    let ghost q = *pos as int;
    let ghost names = binding_names(bindings_v(parameters@));
    expect_symbol(ts, pos, Symbol::RParen)?;
    expect_symbol(ts, pos, Symbol::LBrace)?;
    let ghost q2 = *pos as int;
    let mut precondition: Option<Formula> = None;
    let mut effect: Option<(Vec<Atom>, Vec<Atom>)> = None;
    proof {
        reveal_strlit("pre");
        reveal_strlit("effect");
        assert(g_fields(tv, q2, names, None, None) is None ==> g_action(tv, p0) is None);
        assert(g_fields(tv, q2, names, None, None) is None ==> f_action(tv, p0) == f_fields(tv, q2, names, None, None));
    }
    while !is_symbol(ts, *pos, Symbol::RBrace)
        invariant
            at(ts@, *pos as int),
            *old(pos) < *pos,
            q2 <= *pos,
            p0 == *old(pos) as int,
            g_fields(tv, q2, names, None, None) is None ==> g_action(tv, p0) is None,
            g_fields(tv, q2, names, None, None) is None ==> f_action(tv, p0) == f_fields(tv, q2, names, None, None),
            tv == tokens_view(ts@),
            scope_words(scope@),
            scope_v(scope@) == names,
            precondition matches Some(f) ==> crate::syntax::formula_words(f),
            effect matches Some(e) ==> (forall|j: int| 0 <= j < e.0@.len() ==> crate::syntax::atom_words(#[trigger] e.0@[j]))
                && (forall|j: int| 0 <= j < e.1@.len() ==> crate::syntax::atom_words(#[trigger] e.1@[j])),
            g_fields(tv, q2, names, None, None) == g_fields(tv, *pos as int, names, pre_v(precondition), effect_v(effect)),
            f_fields(tv, q2, names, None, None) == f_fields(tv, *pos as int, names, pre_v(precondition), effect_v(effect)),
        decreases ts@.len() - *pos,
    {
        let ghost f0 = *pos as int;
        let ghost pv = pre_v(precondition);
        let ghost ev = effect_v(effect);
        if is_end(ts, *pos) {
            proof {
                assert(g_fields(tv, f0, names, pv, ev) is None);
            }
            return Err(error_here(ts, *pos, "unclosed action block"));
        }
        let field = match read_name(ts, pos) {
            Ok(n) => n,
            Err(e) => {
                proof {
                    assert(g_fields(tv, f0, names, pv, ev) is None);
                }
                return Err(e);
            },
        };
        match expect_symbol(ts, pos, Symbol::Colon) {
            Ok(()) => {},
            Err(e) => {
                proof {
                    assert(g_fields(tv, f0, names, pv, ev) is None);
                }
                return Err(e);
            },
        }
        if equals_literal(&field, "pre") {
            if precondition.is_some() {
                proof {
                    reveal_strlit("pre");
                    reveal_strlit("effect");
                    assert(g_fields(tv, f0, names, pv, ev) is None);
                }
                return Err(error_previous(ts, *pos, "duplicate action pre section"));
            }
            let parsed = match formula(ts, pos, 0, &mut scope, 0) {
                Ok(f) => f,
                Err(e) => {
                    proof {
                        assert(g_fields(tv, f0, names, pv, ev) is None);
                    }
                    return Err(e);
                },
            };
            precondition = Some(parsed);
        } else if equals_literal(&field, "effect") {
            if effect.is_some() {
                proof {
                    assert(g_fields(tv, f0, names, pv, ev) is None);
                }
                return Err(error_previous(ts, *pos, "duplicate action effect section"));
            }
            let parsed = match formula(ts, pos, 0, &mut scope, 0) {
                Ok(f) => f,
                Err(e) => {
                    proof {
                        assert(g_fields(tv, f0, names, pv, ev) is None);
                    }
                    return Err(e);
                },
            };
            let mut additions: Vec<Atom> = Vec::new();
            let mut deletions: Vec<Atom> = Vec::new();
            match collect_effect(ts, *pos, &parsed, &mut additions, &mut deletions) {
                Ok(()) => {},
                Err(e) => {
                    proof {
                        assert(g_fields(tv, f0, names, pv, ev) is None);
                    }
                    return Err(e);
                },
            }
            proof {
                assert(atoms_v(additions@).subrange(0, additions@.len() as int) =~= atoms_v(additions@));
                assert(atoms_v(deletions@).subrange(0, deletions@.len() as int) =~= atoms_v(deletions@));
            }
            effect = Some((additions, deletions));
        } else {
            proof {
                assert(g_fields(tv, f0, names, pv, ev) is None);
            }
            let message = concat3("unknown action field '", field.as_str(), "'");
            return Err(error_previous(ts, *pos, message.as_str()));
        }
        match expect_symbol(ts, pos, Symbol::Semi) {
            Ok(()) => {},
            Err(e) => {
                proof {
                    assert(g_fields(tv, f0, names, pv, ev) is None);
                }
                return Err(e);
            },
        }
    }
    advance(ts, pos);
    let precondition = match precondition {
        Some(f) => f,
        None => return Err(error_previous(ts, *pos, "action is missing pre")),
    };
    let (add, delete) = match effect {
        Some(e) => e,
        None => return Err(error_previous(ts, *pos, "action is missing effect")),
    };
    let action = Action { name, parameters, precondition, add, delete };
    proof {
        assert(action_v(action).add == atoms_v(action.add@));
        assert(action_v(action).delete == atoms_v(action.delete@));
    }
    Ok(action)
}

/// Whether the declared section keyword is next.
fn section_is(ts: &Vec<Token>, pos: usize, keyword: &str) -> (r: bool)
    requires
        pos < ts@.len(),
    ensures
        r ==> !(ts@[pos as int].kind is End),
        r == word_is(tokens_view(ts@), pos as int, keyword@),
{
    peek_is(ts, pos, keyword)
}

/// The sections read so far, as values.
pub open spec fn sections_v(
    types: Option<Vec<String>>,
    objects: Option<Vec<Binding>>,
    predicates: Option<Vec<Predicate>>,
    initial: Option<State>,
    goal: Option<Formula>,
    actions: Seq<Action>,
) -> SectionsV {
    SectionsV {
        types: match types {
            Some(v) => Some(scope_v(v@)),
            None => None,
        },
        objects: match objects {
            Some(v) => Some(bindings_v(v@)),
            None => None,
        },
        predicates: match predicates {
            Some(v) => Some(v@.map_values(|x: Predicate| predicate_v(x))),
            None => None,
        },
        initial: match initial {
            Some(st) => Some(st@),
            None => None,
        },
        goal: pre_v(goal),
        actions: actions.map_values(|a: Action| action_v(a)),
    }
}

/// `problem name { sections }`: each of `types`, `objects`, `predicates`, `init`, and
/// `goal` exactly once, and any number of actions, then the end of input.
fn parse_task(ts: &Vec<Token>) -> (r: Result<Task, Error>)
    requires
        tokens_ok(ts@),
    ensures
        r matches Ok(task) ==> crate::syntax::task_words(task),
        r is Ok <==> g_task(tokens_view(ts@)) is Some,
        r matches Ok(task) ==> g_task(tokens_view(ts@)) == Some(task_v(task)),
        g_task_failure(tokens_view(ts@)) matches Some((p, m)) ==> (r matches Err(e) && e.spec_message() == message_at(
            tokens_view(ts@)[p].1,
            tokens_view(ts@)[p].2,
            m,
        )),
        r is Err ==> g_task_failure(tokens_view(ts@)) is Some,
        input_error(r),
{
    let ghost tv = tokens_view(ts@);
    let mut p: usize = 0;
    let pos = &mut p;
    proof {
        reveal_strlit("problem");
    }
    expect_name(ts, pos, "problem")?;
    let name = read_name(ts, pos)?;
    expect_symbol(ts, pos, Symbol::LBrace)?;
    let mut types: Option<Vec<String>> = None;
    let mut objects: Option<Vec<Binding>> = None;
    let mut predicates: Option<Vec<Predicate>> = None;
    let mut initial: Option<State> = None;
    let mut goal: Option<Formula> = None;
    let mut actions: Vec<Action> = Vec::new();
    proof {
        assert(actions@.map_values(|a: Action| action_v(a)) =~= Seq::<crate::grammar::ActionV>::empty());
        assert(sections_v(types, objects, predicates, initial, goal, actions@) == no_sections());
        assert(g_sections(tv, 3, no_sections()) is None ==> g_task(tv) is None);
    }
    while !is_symbol(ts, *pos, Symbol::RBrace)
        invariant
            at(ts@, *pos as int),
            3 <= *pos,
            tv == tokens_view(ts@),
            types matches Some(v) ==> forall|i: int| 0 <= i < v@.len() ==> is_word((#[trigger] v@[i])@),
            objects matches Some(v) ==> crate::syntax::bindings_words(v@),
            predicates matches Some(v) ==> forall|i: int| 0 <= i < v@.len() ==> is_word((#[trigger] v@[i]).name@)
                && forall|j: int| 0 <= j < v@[i].parameters@.len() ==> is_word((#[trigger] v@[i].parameters@[j])@),
            initial matches Some(st) ==> crate::syntax::state_words(st@),
            goal matches Some(f) ==> crate::syntax::formula_words(f),
            forall|i: int| 0 <= i < actions@.len() ==> action_words(#[trigger] actions@[i]),
            g_sections(tv, 3, no_sections()) is None ==> g_task(tv) is None,
            g_sections(tv, 3, no_sections()) == g_sections(tv, *pos as int, sections_v(types, objects, predicates, initial, goal, actions@)),
            word_is(tv, 0, "problem"@),
            name_at(tv, 1) is Some,
            sym(tv, 2, Symbol::LBrace),
            g_sections_end(tv, 3, no_sections()) == g_sections_end(
                tv,
                *pos as int,
                sections_v(types, objects, predicates, initial, goal, actions@),
            ),
        decreases ts@.len() - *pos,
    {
        let ghost q = *pos as int;
        let ghost acc = sections_v(types, objects, predicates, initial, goal, actions@);
        proof {
            reveal_strlit("types");
            reveal_strlit("objects");
            reveal_strlit("predicates");
            reveal_strlit("init");
            reveal_strlit("goal");
            reveal_strlit("action");
        }
        if is_end(ts, *pos) {
            proof {
                assert(g_sections(tv, q, acc) is None);
            }
            return Err(error_here(ts, *pos, "unclosed problem block"));
        }
        if section_is(ts, *pos, "types") {
            advance(ts, pos);
            if types.is_some() {
                proof {
                    assert(g_sections(tv, q, acc) is None);
                }
                return Err(error_previous(ts, *pos, "duplicate types section"));
            }
            let v = match parse_types(ts, pos) {
                Ok(v) => v,
                Err(e) => {
                    proof {
                        assert(g_sections(tv, q, acc) is None);
                    }
                    return Err(e);
                },
            };
            types = Some(v);
            proof {
                assert(sections_v(types, objects, predicates, initial, goal, actions@) == SectionsV { types: Some(scope_v(v@)), ..acc });
            }
        } else if section_is(ts, *pos, "objects") {
            advance(ts, pos);
            if objects.is_some() {
                proof {
                    assert(g_sections(tv, q, acc) is None);
                }
                return Err(error_previous(ts, *pos, "duplicate objects section"));
            }
            let v = match parse_objects(ts, pos) {
                Ok(v) => v,
                Err(e) => {
                    proof {
                        assert(g_sections(tv, q, acc) is None);
                    }
                    return Err(e);
                },
            };
            objects = Some(v);
            proof {
                assert(sections_v(types, objects, predicates, initial, goal, actions@) == SectionsV { objects: Some(bindings_v(v@)), ..acc });
            }
        } else if section_is(ts, *pos, "predicates") {
            advance(ts, pos);
            if predicates.is_some() {
                proof {
                    assert(g_sections(tv, q, acc) is None);
                }
                return Err(error_previous(ts, *pos, "duplicate predicates section"));
            }
            let v = match parse_predicates(ts, pos) {
                Ok(v) => v,
                Err(e) => {
                    proof {
                        assert(g_sections(tv, q, acc) is None);
                    }
                    return Err(e);
                },
            };
            predicates = Some(v);
            proof {
                assert(sections_v(types, objects, predicates, initial, goal, actions@)
                    == SectionsV { predicates: Some(v@.map_values(|x: Predicate| predicate_v(x))), ..acc });
            }
        } else if section_is(ts, *pos, "init") {
            advance(ts, pos);
            if initial.is_some() {
                proof {
                    assert(g_sections(tv, q, acc) is None);
                }
                return Err(error_previous(ts, *pos, "duplicate init section"));
            }
            match expect_symbol(ts, pos, Symbol::Colon) {
                Ok(()) => {},
                Err(e) => {
                    proof {
                        assert(g_sections(tv, q, acc) is None);
                    }
                    return Err(e);
                },
            }
            let mut scope: Vec<String> = Vec::new();
            proof {
                assert(scope_v(scope@) =~= Seq::<Seq<char>>::empty());
            }
            let parsed = match formula(ts, pos, 0, &mut scope, 0) {
                Ok(f) => f,
                Err(e) => {
                    proof {
                        assert(g_sections(tv, q, acc) is None);
                    }
                    return Err(e);
                },
            };
            let mut state = State::new();
            proof {
                assert(crate::syntax::state_words(state@));
            }
            match collect_initial(ts, *pos, &parsed, &mut state) {
                Ok(()) => {},
                Err(e) => {
                    proof {
                        assert(g_sections(tv, q, acc) is None);
                    }
                    return Err(e);
                },
            }
            proof {
                assert(state@ =~= facts_of(formula_v(parsed))->0);
            }
            match expect_symbol(ts, pos, Symbol::Semi) {
                Ok(()) => {},
                Err(e) => {
                    proof {
                        assert(g_sections(tv, q, acc) is None);
                    }
                    return Err(e);
                },
            }
            let ghost st = state@;
            initial = Some(state);
            proof {
                assert(sections_v(types, objects, predicates, initial, goal, actions@) == SectionsV { initial: Some(st), ..acc });
            }
        } else if section_is(ts, *pos, "goal") {
            advance(ts, pos);
            if goal.is_some() {
                proof {
                    assert(g_sections(tv, q, acc) is None);
                }
                return Err(error_previous(ts, *pos, "duplicate goal section"));
            }
            match expect_symbol(ts, pos, Symbol::Colon) {
                Ok(()) => {},
                Err(e) => {
                    proof {
                        assert(g_sections(tv, q, acc) is None);
                    }
                    return Err(e);
                },
            }
            let mut scope: Vec<String> = Vec::new();
            proof {
                assert(scope_v(scope@) =~= Seq::<Seq<char>>::empty());
            }
            let parsed = match formula(ts, pos, 0, &mut scope, 0) {
                Ok(f) => f,
                Err(e) => {
                    proof {
                        assert(g_sections(tv, q, acc) is None);
                    }
                    return Err(e);
                },
            };
            match expect_symbol(ts, pos, Symbol::Semi) {
                Ok(()) => {},
                Err(e) => {
                    proof {
                        assert(g_sections(tv, q, acc) is None);
                    }
                    return Err(e);
                },
            }
            let ghost gv = formula_v(parsed);
            goal = Some(parsed);
            proof {
                assert(sections_v(types, objects, predicates, initial, goal, actions@) == SectionsV { goal: Some(gv), ..acc });
            }
        } else if section_is(ts, *pos, "action") {
            advance(ts, pos);
            let action = match parse_action(ts, pos) {
                Ok(a) => a,
                Err(e) => {
                    proof {
                        assert(g_sections(tv, q, acc) is None);
                    }
                    return Err(e);
                },
            };
            let ghost before = actions@;
            let ghost av = action_v(action);
            actions.push(action);
            proof {
                assert forall|i: int| 0 <= i < actions@.len() implies action_words(#[trigger] actions@[i]) by {
                    if i < before.len() {
                        assert(actions@[i] == before[i]);
                    }
                }
                assert(actions@.map_values(|a: Action| action_v(a)) =~= before.map_values(|a: Action| action_v(a)).push(av));
                assert(sections_v(types, objects, predicates, initial, goal, actions@) == SectionsV { actions: acc.actions.push(av), ..acc });
            }
        } else {
            proof {
                assert(g_sections(tv, q, acc) is None);
            }
            match &ts[*pos].kind {
                TokenKind::Name(other) => {
                    let message = concat3("unknown section '", other.as_str(), "'");
                    return Err(error_here(ts, *pos, message.as_str()));
                },
                _ => return Err(error_here(ts, *pos, "expected a section")),
            }
        }
    }
    let ghost acc = sections_v(types, objects, predicates, initial, goal, actions@);
    advance(ts, pos);
    proof {
        assert(g_sections(tv, 3, no_sections()) == Some((acc, *pos as int)));
    }
    if !is_end(ts, *pos) {
        return Err(error_here(ts, *pos, "unexpected trailing input"));
    }
    let types = match types {
        Some(v) => v,
        None => return Err(error_previous(ts, *pos, "missing required types section")),
    };
    let objects = match objects {
        Some(v) => v,
        None => return Err(error_previous(ts, *pos, "missing required objects section")),
    };
    let predicates = match predicates {
        Some(v) => v,
        None => return Err(error_previous(ts, *pos, "missing required predicates section")),
    };
    let initial = match initial {
        Some(v) => v,
        None => return Err(error_previous(ts, *pos, "missing required init section")),
    };
    let goal = match goal {
        Some(v) => v,
        None => return Err(error_previous(ts, *pos, "missing required goal section")),
    };
    let task = Task { name, types, objects, predicates, actions, initial, goal };
    proof {
        assert forall|i: int| 0 <= i < task.actions@.len() implies {
            &&& is_word((#[trigger] task.actions@[i]).name@)
            &&& crate::syntax::bindings_words(task.actions@[i].parameters@)
            &&& crate::syntax::formula_words(task.actions@[i].precondition)
            &&& forall|j: int| 0 <= j < task.actions@[i].add@.len() ==> crate::syntax::atom_words(#[trigger] task.actions@[i].add@[j])
            &&& forall|j: int| 0 <= j < task.actions@[i].delete@.len() ==> crate::syntax::atom_words(#[trigger] task.actions@[i].delete@[j])
        } by {
            assert(action_words(task.actions@[i]));
        }
    }
    Ok(task)
}

/// Parses a FOLPlan task written in the brace-based infix language.
///
/// Accepted input is ASCII throughout, comments included, and splits into tokens as
/// `lex_from` describes; a lexical error is reported with its message. The tokens are then
/// accepted exactly when they form a task as `g_task` describes, and the task returned is the
/// one `g_task` reads. Otherwise the error is the one `g_task_failure` gives: the token at
/// which reading stops, with its line and column, and what was wrong there. Every name in the result is a normalized identifier: a lowercase ASCII
/// letter followed by lowercase letters, digits, `_`, or `-`.
pub fn parse_dsl(source: &str) -> (r: Result<Task, Error>)
    requires
        source@.len() < usize::MAX,
    ensures
        r is Ok <==> (lex_from(source@, 0, 1, 1) matches Ok(ls) && g_task(ls) is Some),
        r matches Ok(task) ==> (lex_from(source@, 0, 1, 1) matches Ok(ls) && g_task(ls) == Some(task_v(task))),
        r is Ok ==> all_ascii(source@),
        lex_from(source@, 0, 1, 1) matches Err(m) ==> (r matches Err(e) && e.spec_message() == m),
        lex_from(source@, 0, 1, 1) matches Ok(ls) ==> (r is Err <==> g_task_failure(ls) is Some),
        lex_from(source@, 0, 1, 1) matches Ok(ls) ==> (g_task_failure(ls) matches Some((p, m)) ==> (r matches Err(e)
            && e.spec_message() == message_at(ls[p].1, ls[p].2, m))),
        r matches Ok(task) ==> crate::syntax::task_words(task),
        r matches Err(e) ==> e.spec_kind() == ErrorKind::InvalidInput,
        r matches Err(e) ==> is_located(e.spec_message()),
{
    let tokens = lex(source)?;
    parse_task(&tokens)
}


/// ASCII white space between tokens is skipped: a tab, vertical tab, form feed, carriage
/// return, or space advances the column by one and lexing goes on after it; a line feed
/// starts the next line at column 1.
pub proof fn law_lex_skips_white_space(cs: Seq<char>, i: int, line: nat, column: nat)
    requires
        0 <= i < cs.len(),
        cs[i] == '\t' || cs[i] == '\x0B' || cs[i] == '\x0C' || cs[i] == '\r' || cs[i] == ' ' || cs[i] == '\n',
    ensures
        cs[i] != '\n' ==> lex_from(cs, i, line, column) == lex_from(cs, i + 1, line, column + 1),
        cs[i] == '\n' ==> lex_from(cs, i, line, column) == lex_from(cs, i + 1, line + 1, 1),
{
    assert(('\t' as u32) == 9 && ('\x0B' as u32) == 11 && ('\x0C' as u32) == 12 && ('\r' as u32) == 13
        && (' ' as u32) == 32 && ('\n' as u32) == 10);
}

} // verus!
