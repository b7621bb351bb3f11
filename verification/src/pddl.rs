//! Parser for the supported PDDL subset: a domain and a problem read into one task.
use vstd::prelude::*;

use crate::model::{Action, Atom, Binding, Error, ErrorKind, Formula, GroundAtom, Predicate, State, Task, Term};
use crate::syntax::{
    all_ascii, ascii, equals_literal, is_ascii, is_ident_char, is_letter, is_space, is_word, lemma_lower_lowered,
    lemma_lowered_ident, lower, lowered, non_ascii_error, space, to_lower,
};
use crate::grammar::{task_v, ActionV, atom_v, atoms_v, action_v, effects_after, facts_after, ground_terms, object_names, bindings_v, predicate_v, formula_v, formulas_v, lemma_formulas_v, terms_v, term_v, typed, FormulaV, TermV};
use crate::dsl::scope_v;
use crate::pddl_rules::{
    g_items, g_sexp, lemma_nodes_v, seq_after, node_v, nodes_v, sexp_tree, v_atom, v_head_is, v_name, v_predicate_name, v_term,
    v_formula, v_formulas_from, v_terms_from, v_typed_from, NodeV, v_section, v_sections_from, find, find_from, known_key,
    supported_requirement, v_requirements, v_header, v_types, v_types_from, v_predicates, v_predicates_from,
    v_predicate_decl, v_effect, v_effects_from, v_action, v_slots_from, v_initial, v_facts_from, v_section_formula,
    v_typed_section, v_actions_from, v_pddl, pddl_task,
};
use crate::text::{concat3, copy_string, located, str_chars, string_from_chars};

verus! {

/// The most nested lists and formulas the parser accepts.
pub const MAX_LIST_DEPTH: usize = 256;

/// A lexical item: a parenthesis or a word.
enum Piece {
    Open,
    Close,
    Word(String),
}

struct Lexed {
    piece: Piece,
    line: usize,
    column: usize,
}

/// A parsed s-expression with the position where it starts.
pub struct Node {
    pub kind: NodeKind,
    pub line: usize,
    pub column: usize,
}

pub enum NodeKind {
    Atom(String),
    List(Vec<Node>),
}

/// Whether every word is lowered.
spec fn lexeds_ok(ls: Seq<Lexed>) -> bool {
    forall|i: int| 0 <= i < ls.len() ==> ((#[trigger] ls[i]).piece matches Piece::Word(w) ==> lowered(w@))
}

/// Whether every atom of the tree is lowered.
pub open spec fn node_ok(n: Node) -> bool
    decreases n, 0int,
{
    match n.kind {
        NodeKind::Atom(s) => lowered(s@),
        NodeKind::List(items) => nodes_ok(items@),
    }
}

pub open spec fn nodes_ok(ns: Seq<Node>) -> bool
    decreases ns, 0int,
{
    if ns.len() == 0 {
        true
    } else {
        node_ok(ns[0]) && nodes_ok(ns.drop_first())
    }
}

/// The list form of `nodes_ok`.
pub proof fn lemma_nodes_ok(ns: Seq<Node>)
    ensures
        nodes_ok(ns) <==> forall|i: int| 0 <= i < ns.len() ==> node_ok(#[trigger] ns[i]),
    decreases ns.len(),
{
    if ns.len() > 0 {
        lemma_nodes_ok(ns.drop_first());
        if forall|i: int| 0 <= i < ns.len() ==> node_ok(#[trigger] ns[i]) {
            assert forall|i: int| 0 <= i < ns.drop_first().len() implies node_ok(#[trigger] ns.drop_first()[i]) by {
                assert(ns.drop_first()[i] == ns[i + 1]);
            }
        }
        if nodes_ok(ns) {
            assert forall|i: int| 0 <= i < ns.len() implies node_ok(#[trigger] ns[i]) by {
                if i > 0 {
                    assert(ns[i] == ns.drop_first()[i - 1]);
                }
            }
        }
    }
}

/// A PDDL token: a parenthesis or a lowercased word.
pub enum SexpToken {
    Open,
    Close,
    Word(Seq<char>),
}

spec fn lexed_view(l: Lexed) -> (SexpToken, nat, nat) {
    (
        match l.piece {
            Piece::Open => SexpToken::Open,
            Piece::Close => SexpToken::Close,
            Piece::Word(w) => SexpToken::Word(w@),
        },
        l.line as nat,
        l.column as nat,
    )
}

spec fn lexed_views(ls: Seq<Lexed>) -> Seq<(SexpToken, nat, nat)> {
    ls.map_values(|l: Lexed| lexed_view(l))
}

/// Whether the character at `i` ends a word: white space, a parenthesis, or a `;`.
pub open spec fn ends_word(cs: Seq<char>, i: int) -> bool {
    space(cs[i]) || cs[i] == '(' || cs[i] == ')' || cs[i] == ';'
}

/// The error for a word with a non-ASCII character, at the word's start.
pub open spec fn identifier_message(line: nat, column: nat) -> Seq<char> {
    crate::dsl::message_at(line, column, "identifiers must be ASCII"@)
}

/// Where a word continued from `i` ends.
pub open spec fn sexp_word_end(cs: Seq<char>, i: int) -> int
    decreases cs.len() - i,
{
    if i >= cs.len() || ends_word(cs, i) {
        i
    } else {
        sexp_word_end(cs, i + 1)
    }
}

pub proof fn lemma_sexp_word_end(cs: Seq<char>, i: int)
    ensures
        sexp_word_end(cs, i) >= i,
        i <= cs.len() ==> sexp_word_end(cs, i) <= cs.len(),
    decreases cs.len() - i,
{
    if !(i >= cs.len() || ends_word(cs, i)) {
        lemma_sexp_word_end(cs, i + 1);
    }
}

pub open spec fn sexp_prepend(t: (SexpToken, nat, nat), r: Result<Seq<(SexpToken, nat, nat)>, Seq<char>>) -> Result<Seq<(SexpToken, nat, nat)>, Seq<char>> {
    match r {
        Ok(ts) => Ok(seq![t] + ts),
        Err(m) => Err(m),
    }
}

pub open spec fn sexp_after(p: Seq<(SexpToken, nat, nat)>, r: Result<Seq<(SexpToken, nat, nat)>, Seq<char>>) -> Result<Seq<(SexpToken, nat, nat)>, Seq<char>> {
    match r {
        Ok(ts) => Ok(p + ts),
        Err(m) => Err(m),
    }
}

/// The PDDL tokens of `cs` from index `i`, at the given line and column, or the error
/// message.
///
/// Line feeds start a new line at column 1; other white space advances the column; `;`
/// starts a comment through the end of the line; parentheses are tokens; any other run of
/// characters up to white space, a parenthesis, or `;` is a word, lowercased. A word with a
/// non-ASCII character is an error at the word's start; a non-ASCII character in a comment
/// is an error at its own position.
pub open spec fn sexp_lex_from(cs: Seq<char>, i: int, line: nat, column: nat) -> Result<Seq<(SexpToken, nat, nat)>, Seq<char>>
    decreases cs.len() - i, 0int,
{
    if i >= cs.len() {
        Ok(Seq::empty())
    } else if cs[i] == '\n' {
        sexp_lex_from(cs, i + 1, line + 1, 1)
    } else if cs[i] == ';' {
        sexp_comment_from(cs, i + 1, line, column + 1)
    } else if space(cs[i]) {
        sexp_lex_from(cs, i + 1, line, column + 1)
    } else if cs[i] == '(' {
        sexp_prepend((SexpToken::Open, line, column), sexp_lex_from(cs, i + 1, line, column + 1))
    } else if cs[i] == ')' {
        sexp_prepend((SexpToken::Close, line, column), sexp_lex_from(cs, i + 1, line, column + 1))
    } else {
        let e = sexp_word_end(cs, i + 1);
        proof {
            lemma_sexp_word_end(cs, i + 1);
        }
        if !all_ascii(cs.subrange(i, e)) {
            Err(identifier_message(line, column))
        } else {
            sexp_prepend(
                (SexpToken::Word(crate::dsl::lowercase(cs.subrange(i, e))), line, column),
                sexp_lex_from(cs, e, line, (column + (e - i)) as nat),
            )
        }
    }
}

/// The rest of a comment from index `i`, then the tokens after it.
pub open spec fn sexp_comment_from(cs: Seq<char>, i: int, line: nat, column: nat) -> Result<Seq<(SexpToken, nat, nat)>, Seq<char>>
    decreases cs.len() - i, 1int,
{
    if i >= cs.len() {
        sexp_lex_from(cs, i, line, column)
    } else if !ascii(cs[i]) {
        Err(crate::dsl::non_ascii_message(line, column, cs[i]))
    } else if cs[i] == '\n' {
        sexp_lex_from(cs, i + 1, line + 1, 1)
    } else {
        sexp_comment_from(cs, i + 1, line, column + 1)
    }
}

proof fn lemma_sexp_after_push(p: Seq<(SexpToken, nat, nat)>, t: (SexpToken, nat, nat), r: Result<Seq<(SexpToken, nat, nat)>, Seq<char>>)
    ensures
        sexp_after(p, sexp_prepend(t, r)) == sexp_after(p.push(t), r),
{
    match r {
        Ok(ts) => {
            assert(p + (seq![t] + ts) =~= p.push(t) + ts);
        },
        Err(m) => {},
    }
}

/// The error for a word with a non-ASCII character, at the word's start.
fn identifier_error(line: usize, column: usize) -> (e: Error)
    ensures
        e.spec_kind() == ErrorKind::InvalidInput,
        e.spec_message() == identifier_message(line as nat, column as nat),
        crate::dsl::is_located(e.spec_message()),
{
    let e = Error::new(located(line, column, "identifiers must be ASCII"));
    assert(e.spec_message() =~= identifier_message(line as nat, column as nat));
    e
}

/// The error for a non-ASCII character at a source position.
fn non_ascii_at(line: usize, column: usize, c: char) -> (e: Error)
    ensures
        e.spec_kind() == ErrorKind::InvalidInput,
        e.spec_message() == crate::dsl::non_ascii_message(line as nat, column as nat, c),
        crate::dsl::is_located(e.spec_message()),
{
    let e = non_ascii_error(line, column, c);
    assert(e.spec_message() =~= crate::dsl::non_ascii_message(line as nat, column as nat, c));
    assert(crate::dsl::message_at(line as nat, column as nat, "non-ASCII character '"@ + seq![c] + "'"@) == e.spec_message());
    e
}

/// Splits PDDL text into parentheses and lowercased words, following `sexp_lex_from`.
fn lex(source: &str) -> (r: Result<Vec<Lexed>, Error>)
    requires
        source@.len() < usize::MAX,
    ensures
        r is Ok <==> sexp_lex_from(source@, 0, 1, 1) is Ok,
        r matches Ok(ls) ==> sexp_lex_from(source@, 0, 1, 1) == Ok::<Seq<(SexpToken, nat, nat)>, Seq<char>>(lexed_views(ls@)),
        r matches Err(e) ==> sexp_lex_from(source@, 0, 1, 1) == Err::<Seq<(SexpToken, nat, nat)>, Seq<char>>(e.spec_message()),
        r matches Ok(ls) ==> lexeds_ok(ls@) && all_ascii(source@),
        !all_ascii(source@) ==> r is Err,
        r matches Err(e) ==> e.spec_kind() == ErrorKind::InvalidInput,
        r matches Err(e) ==> crate::dsl::is_located(e.spec_message()),
{
    let cs = str_chars(source);
    let ghost whole = sexp_lex_from(cs@, 0, 1, 1);
    let mut result: Vec<Lexed> = Vec::new();
    let mut i: usize = 0;
    let mut line: usize = 1;
    let mut column: usize = 1;
    proof {
        assert(lexed_views(result@) =~= Seq::<(SexpToken, nat, nat)>::empty());
        assert(sexp_after(Seq::<(SexpToken, nat, nat)>::empty(), whole) == whole);
    }
    while i < cs.len()
        invariant
            cs@ == source@,
            cs@.len() < usize::MAX,
            whole == sexp_lex_from(cs@, 0, 1, 1),
            i <= cs@.len(),
            1 <= line <= i + 1,
            1 <= column <= i + 1,
            forall|j: int| 0 <= j < i ==> ascii(#[trigger] cs@[j]),
            lexeds_ok(result@),
            whole == sexp_after(lexed_views(result@), sexp_lex_from(cs@, i as int, line as nat, column as nat)),
        decreases cs.len() - i,
    {
        let ch = cs[i];
        if !is_ascii(ch) {
            proof {
                lemma_sexp_word_end(cs@, i + 1);
                let e = sexp_word_end(cs@, i + 1);
                assert(cs@.subrange(i as int, e)[0] == ch);
                assert(!all_ascii(cs@.subrange(i as int, e)));
            }
            return Err(identifier_error(line, column));
        }
        if ch == '\n' {
            line = line + 1;
            column = 1;
            i = i + 1;
            continue;
        }
        if ch == ';' {
            i = i + 1;
            column = column + 1;
            let ghost i0 = i;
            while i < cs.len()
                invariant_except_break
                    whole == sexp_after(lexed_views(result@), sexp_comment_from(cs@, i as int, line as nat, column as nat)),
                invariant
                    i0 <= i,
                    cs@ == source@,
                    cs@.len() < usize::MAX,
                    whole == sexp_lex_from(cs@, 0, 1, 1),
                    i <= cs@.len(),
                    1 <= line <= i + 1,
                    1 <= column <= i + 1,
                    forall|j: int| 0 <= j < i ==> ascii(#[trigger] cs@[j]),
                ensures
                    i0 <= i,
                    i <= cs@.len(),
                    1 <= line <= i + 1,
                    1 <= column <= i + 1,
                    forall|j: int| 0 <= j < i ==> ascii(#[trigger] cs@[j]),
                    whole == sexp_after(lexed_views(result@), sexp_lex_from(cs@, i as int, line as nat, column as nat)),
                decreases cs.len() - i,
            {
                let c = cs[i];
                if !is_ascii(c) {
                    proof {
                        assert(sexp_comment_from(cs@, i as int, line as nat, column as nat) == Err::<Seq<(SexpToken, nat, nat)>, Seq<char>>(
                            crate::dsl::non_ascii_message(line as nat, column as nat, c)));
                    }
                    return Err(non_ascii_at(line, column, c));
                }
                i = i + 1;
                if c == '\n' {
                    line = line + 1;
                    column = 1;
                    break;
                }
                column = column + 1;
            }
            continue;
        }
        if is_space(ch) {
            column = column + 1;
            i = i + 1;
            continue;
        }
        let ghost before = result@;
        if ch == '(' || ch == ')' {
            let piece = if ch == '(' { Piece::Open } else { Piece::Close };
            let item = Lexed { piece, line, column };
            proof {
                lemma_sexp_after_push(lexed_views(before), lexed_view(item),
                    sexp_lex_from(cs@, i + 1, line as nat, (column + 1) as nat));
            }
            result.push(item);
            proof {
                assert(lexed_views(result@) =~= lexed_views(before).push(lexed_view(item)));
                assert forall|k: int| 0 <= k < result@.len() implies ((#[trigger] result@[k]).piece matches Piece::Word(w) ==> lowered(w@)) by {
                    if k < before.len() {
                        assert(result@[k] == before[k]);
                    }
                }
            }
            column = column + 1;
            i = i + 1;
            continue;
        }
        let start_line = line;
        let start_column = column;
        let ghost start = i as int;
        let mut text: Vec<char> = Vec::new();
        proof {
            lemma_lower_lowered(ch);
        }
        text.push(to_lower(ch));
        i = i + 1;
        column = column + 1;
        let ghost i0 = i;
        proof {
            assert(text@ =~= crate::dsl::lowercase(cs@.subrange(start, i as int)));
        }
        while i < cs.len()
            invariant
                i0 <= i,
                0 <= start,
                i0 == start + 1,
                whole == sexp_lex_from(cs@, 0, 1, 1),
                cs@ == source@,
                cs@.len() < usize::MAX,
                i <= cs@.len(),
                1 <= line <= i + 1,
                1 <= column <= i + 1,
                column == start_column + (i - start),
                line == start_line,
                forall|j: int| 0 <= j < i ==> ascii(#[trigger] cs@[j]),
                lowered(text@),
                text@ == crate::dsl::lowercase(cs@.subrange(start, i as int)),
                sexp_word_end(cs@, start + 1) == sexp_word_end(cs@, i as int),
                whole == sexp_after(lexed_views(before), sexp_lex_from(cs@, start, start_line as nat, start_column as nat)),
                start < cs@.len(),
                ascii(cs@[start]),
                !(cs@[start] == '\n' || cs@[start] == ';' || space(cs@[start]) || cs@[start] == '(' || cs@[start] == ')'),
            ensures
                i0 <= i,
                i <= cs@.len(),
                1 <= line <= i + 1,
                1 <= column <= i + 1,
                column == start_column + (i - start),
                forall|j: int| 0 <= j < i ==> ascii(#[trigger] cs@[j]),
                lowered(text@),
                text@ == crate::dsl::lowercase(cs@.subrange(start, i as int)),
                sexp_word_end(cs@, start + 1) == i,
            decreases cs.len() - i,
        {
            let next = cs[i];
            if is_space(next) || next == '(' || next == ')' || next == ';' {
                break;
            }
            if !is_ascii(next) {
                proof {
                    lemma_sexp_word_end(cs@, i + 1);
                    let e = sexp_word_end(cs@, start + 1);
                    assert(e == sexp_word_end(cs@, i + 1));
                    assert(cs@.subrange(start, e)[i - start] == next);
                    assert(!all_ascii(cs@.subrange(start, e)));
                }
                return Err(identifier_error(start_line, start_column));
            }
            proof {
                lemma_lower_lowered(next);
            }
            let ghost t0 = text@;
            text.push(to_lower(next));
            proof {
                assert forall|k: int| 0 <= k < text@.len() implies ascii(#[trigger] text@[k]) && !(65 <= (text@[k] as u32) <= 90) by {
                    if k < t0.len() {
                        assert(text@[k] == t0[k]);
                    }
                }
                let target = crate::dsl::lowercase(cs@.subrange(start, i + 1));
                assert forall|k: int| 0 <= k < text@.len() implies text@[k] == target[k] by {
                    if k < t0.len() {
                        assert(text@[k] == t0[k]);
                        assert(t0[k] == crate::dsl::lowercase(cs@.subrange(start, i as int))[k]);
                    }
                }
                assert(text@ =~= target);
            }
            i = i + 1;
            column = column + 1;
        }
        proof {
            assert(all_ascii(cs@.subrange(start, i as int)));
        }
        let word = string_from_chars(&text);
        let item = Lexed { piece: Piece::Word(word), line: start_line, column: start_column };
        proof {
            lemma_sexp_after_push(lexed_views(before), lexed_view(item), sexp_lex_from(cs@, i as int, line as nat, column as nat));
        }
        result.push(item);
        proof {
            assert(lexed_views(result@) =~= lexed_views(before).push(lexed_view(item)));
            assert forall|k: int| 0 <= k < result@.len() implies ((#[trigger] result@[k]).piece matches Piece::Word(w) ==> lowered(w@)) by {
                if k < before.len() {
                    assert(result@[k] == before[k]);
                }
            }
        }
    }
    proof {
        assert(lexed_views(result@) + Seq::<(SexpToken, nat, nat)>::empty() =~= lexed_views(result@));
        assert(all_ascii(source@));
    }
    Ok(result)
}

/// An error at a lexeme.
fn lexeme_error(l: &Lexed, message: &str) -> (e: Error)
    ensures
        e.spec_kind() == ErrorKind::InvalidInput,
        e.spec_message() == crate::dsl::message_at(l.line as nat, l.column as nat, message@),
        crate::dsl::is_located(e.spec_message()),
{
    let e = Error::new(located(l.line, l.column, message));
    assert(crate::dsl::message_at(l.line as nat, l.column as nat, message@) == e.spec_message());
    e
}

/// An error at a node.
fn at(node: &Node, message: &str) -> (e: Error)
    ensures
        e.spec_kind() == ErrorKind::InvalidInput,
        crate::dsl::is_located(e.spec_message()),
{
    let e = Error::new(located(node.line, node.column, message));
    assert(crate::dsl::message_at(node.line as nat, node.column as nat, message@) == e.spec_message());
    e
}

/// Whether a failure is an input error.
pub open spec fn input_error<T>(r: Result<T, Error>) -> bool {
    r matches Err(e) ==> e.spec_kind() == ErrorKind::InvalidInput && located_or_end(e.spec_message())
}

/// Whether an error message starts with a source position, or reports that the input ended
/// inside a list.
pub open spec fn located_or_end(m: Seq<char>) -> bool {
    crate::dsl::is_located(m) || m == "unexpected end of input"@
}

/// One s-expression starting at `pos`, nested `depth` lists deep.
fn parse_node(ls: &Vec<Lexed>, pos: &mut usize, depth: usize) -> (r: Result<Node, Error>)
    requires
        lexeds_ok(ls@),
        *old(pos) <= ls@.len(),
        depth <= MAX_LIST_DEPTH + 1,
    ensures
        *old(pos) <= *final(pos) <= ls@.len(),
        r matches Ok(n) ==> node_ok(n) && *old(pos) < *final(pos),
        r is Ok <==> g_sexp(lexed_views(ls@), *old(pos) as int, depth as int) is Some,
        r matches Ok(n) ==> g_sexp(lexed_views(ls@), *old(pos) as int, depth as int) == Some((node_v(n), *final(pos) as int)),
        r matches Err(e) ==> e.spec_message() == crate::pddl_rules::f_sexp(lexed_views(ls@), *old(pos) as int, depth as int),
        input_error(r),
    decreases MAX_LIST_DEPTH + 1 - depth,
{
    let ghost lv = lexed_views(ls@);
    if depth > MAX_LIST_DEPTH {
        if *pos < ls.len() {
            return Err(lexeme_error(&ls[*pos], "maximum nesting depth exceeded"));
        }
        let e = Error::new(located(1, 1, "maximum nesting depth exceeded"));
        proof {
            assert(crate::dsl::message_at(1, 1, "maximum nesting depth exceeded"@) == e.spec_message());
        }
        return Err(e);
    }
    if *pos >= ls.len() {
        return Err(Error::new(String::from_str("unexpected end of input")));
    }
    let start = *pos;
    *pos = start + 1;
    match &ls[start].piece {
        Piece::Close => Err(lexeme_error(&ls[start], "unexpected ')'")),
        Piece::Word(w) => {
            proof {
                assert(lowered(w@));
            }
            Ok(Node { kind: NodeKind::Atom(copy_string(w)), line: ls[start].line, column: ls[start].column })
        },
        Piece::Open => {
            let mut items: Vec<Node> = Vec::new();
            proof {
                assert(nodes_v(items@) =~= Seq::<NodeV>::empty());
            }
            loop
                invariant
                    lexeds_ok(ls@),
                    lv == lexed_views(ls@),
                    start < *pos <= ls@.len(),
                    start < ls@.len(),
                    depth <= MAX_LIST_DEPTH,
                    *old(pos) == start,
                    forall|k: int| 0 <= k < items@.len() ==> node_ok(#[trigger] items@[k]),
                    g_sexp(lv, start as int, depth as int) == g_items(lv, *pos as int, depth as int, nodes_v(items@)),
                crate::pddl_rules::f_sexp(lv, start as int, depth as int) == crate::pddl_rules::f_items(
                    lv,
                    *pos as int,
                    depth as int,
                    start as int,
                ),
                decreases ls@.len() - *pos,
            {
                if *pos >= ls.len() {
                    return Err(lexeme_error(&ls[start], "unclosed list"));
                }
                if let Piece::Close = &ls[*pos].piece {
                    *pos = *pos + 1;
                    proof {
                        lemma_nodes_ok(items@);
                    }
                    return Ok(Node { kind: NodeKind::List(items), line: ls[start].line, column: ls[start].column });
                }
                let child = parse_node(ls, pos, depth + 1)?;
                let ghost before = items@;
                let ghost cv = node_v(child);
                items.push(child);
                proof {
                    assert forall|k: int| 0 <= k < items@.len() implies node_ok(#[trigger] items@[k]) by {
                        if k < before.len() {
                            assert(items@[k] == before[k]);
                        }
                    }
                    lemma_nodes_v(before);
                    lemma_nodes_v(items@);
                    assert(nodes_v(items@) =~= nodes_v(before).push(cv));
                }
            }
        },
    }
}

/// The single s-expression making up a source text.
fn parse_one(source: &str) -> (r: Result<Node, Error>)
    requires
        source@.len() < usize::MAX,
    ensures
        r is Ok <==> (sexp_lex_from(source@, 0, 1, 1) matches Ok(ls) && sexp_tree(ls) is Some),
        r matches Ok(n) ==> (sexp_lex_from(source@, 0, 1, 1) matches Ok(ls) && sexp_tree(ls) == Some(node_v(n))),
        r is Ok ==> all_ascii(source@),
        sexp_lex_from(source@, 0, 1, 1) matches Err(m) ==> (r matches Err(e) && e.spec_message() == m),
        sexp_lex_from(source@, 0, 1, 1) matches Ok(ls) ==> (sexp_tree(ls) is None ==> (r matches Err(e)
            && e.spec_message() == crate::pddl_rules::sexp_failure(ls))),
        r matches Ok(n) ==> node_ok(n),
        !all_ascii(source@) ==> r is Err,
        input_error(r),
{
    let ls = lex(source)?;
    let mut pos: usize = 0;
    let node = parse_node(&ls, &mut pos, 0)?;
    if pos != ls.len() {
        return Err(lexeme_error(&ls[pos], "unexpected trailing input"));
    }
    Ok(node)
}


// ----------------------------------------------------------------------------------------------
// Reading the tree
// ----------------------------------------------------------------------------------------------

/// The items of a list node.
fn list<'a>(node: &'a Node, what: &str) -> (r: Result<&'a Vec<Node>, Error>)
    requires
        node_ok(*node),
    ensures
        r matches Ok(items) ==> node.kind == NodeKind::List(*items)
            && forall|k: int| 0 <= k < items@.len() ==> node_ok(#[trigger] items@[k]),
        r is Ok <==> node_v(*node) is List,
        r matches Ok(items) ==> node_v(*node) == NodeV::List(nodes_v(items@)),
        r matches Ok(items) ==> nodes_v(items@).len() == items@.len()
            && forall|k: int| 0 <= k < items@.len() ==> #[trigger] nodes_v(items@)[k] == node_v(items@[k]),
        input_error(r),
{
    match &node.kind {
        NodeKind::List(items) => {
            proof {
                lemma_nodes_ok(items@);
                lemma_nodes_v(items@);
            }
            Ok(items)
        },
        NodeKind::Atom(_) => {
            let message = crate::text::concat("expected ", what);
            Err(at(node, message.as_str()))
        },
    }
}

/// The text of an atom node.
fn atom_text<'a>(node: &'a Node) -> (r: Result<&'a String, Error>)
    requires
        node_ok(*node),
    ensures
        r matches Ok(s) ==> node.kind == NodeKind::Atom(*s) && lowered(s@),
        r is Ok <==> node_v(*node) is Atom,
        r matches Ok(s) ==> node_v(*node) == NodeV::Atom(s@),
        input_error(r),
{
    match &node.kind {
        NodeKind::Atom(s) => Ok(s),
        NodeKind::List(_) => Err(at(node, "expected an identifier")),
    }
}

/// Whether a node is a list whose first item is the atom `lit`.
fn head_is(node: &Node, lit: &str) -> (r: bool)
    ensures
        r == v_head_is(node_v(*node), lit@),
{
    match &node.kind {
        NodeKind::List(items) => {
            proof {
                lemma_nodes_v(items@);
            }
            if items.len() == 0 {
                return false;
            }
            match &items[0].kind {
                NodeKind::Atom(s) => equals_literal(s, lit),
                NodeKind::List(_) => false,
            }
        },
        NodeKind::Atom(_) => false,
    }
}

/// Requires the items of `node` to start with the atom `expected`.
fn expect_head(items: &Vec<Node>, expected: &str, node: &Node) -> (r: Result<(), Error>)
    ensures
        r is Ok ==> (items@.len() > 0 && (items@[0].kind matches NodeKind::Atom(s) && s@ == expected@)),
        r is Ok <==> (items@.len() > 0 && node_v(items@[0]) == NodeV::Atom(expected@)),
        input_error(r),
{
    if items.len() > 0 {
        if let NodeKind::Atom(s) = &items[0].kind {
            if equals_literal(s, expected) {
                return Ok(());
            }
        }
    }
    let message = concat3("expected '", expected, "' form");
    Err(at(node, message.as_str()))
}

/// An identifier, or with `variable` a `?`-prefixed variable whose name follows the `?`:
/// an ASCII letter, then letters, digits, `_`, or `-`.
fn name(node: &Node, variable: bool) -> (r: Result<String, Error>)
    requires
        node_ok(*node),
    ensures
        r matches Ok(n) ==> is_word(n@),
        r is Ok <==> v_name(node_v(*node), variable) is Some,
        r matches Ok(n) ==> v_name(node_v(*node), variable) == Some(n@),
        input_error(r),
{
    let value = atom_text(node)?;
    let cs = str_chars(value.as_str());
    let mut start: usize = 0;
    if variable {
        if cs.len() == 0 || cs[0] != '?' {
            return Err(at(node, "expected variable beginning with '?'"));
        }
        start = 1;
    }
    let ghost body = cs@.subrange(start as int, cs@.len() as int);
    proof {
        if variable {
            assert(body =~= cs@.drop_first());
        } else {
            assert(body =~= cs@);
        }
    }
    let mut ok = start < cs.len() && is_letter(cs[start]);
    let mut i: usize = start;
    while ok && i < cs.len()
        invariant
            cs@ == value@,
            lowered(value@),
            start <= i <= cs@.len(),
            ok ==> start < cs@.len() && crate::syntax::letter(cs@[start as int]),
            ok ==> forall|j: int| start <= j < i ==> crate::syntax::ident_char(#[trigger] cs@[j]),
            !ok ==> !(start < cs@.len() && crate::syntax::letter(cs@[start as int])
                && forall|j: int| start <= j < i ==> crate::syntax::ident_char(#[trigger] cs@[j])),
        decreases cs.len() - i,
    {
        if !is_ident_char(cs[i]) {
            ok = false;
        }
        i = i + 1;
    }
    if !ok {
        proof {
            if crate::pddl_rules::identifier(body) {
                assert(body[0] == cs@[start as int]);
                assert forall|j: int| start <= j < i implies crate::syntax::ident_char(#[trigger] cs@[j]) by {
                    assert(body[j - start] == cs@[j]);
                }
            }
        }
        let kind = if variable { "invalid variable name '" } else { "invalid identifier name '" };
        let message = concat3(kind, value.as_str(), "'");
        return Err(at(node, message.as_str()));
    }
    let mut raw: Vec<char> = Vec::new();
    let mut k: usize = start;
    while k < cs.len()
        invariant
            cs@ == value@,
            lowered(value@),
            start <= k <= cs@.len(),
            start < cs@.len(),
            crate::syntax::letter(cs@[start as int]),
            forall|j: int| start <= j < cs@.len() ==> crate::syntax::ident_char(#[trigger] cs@[j]),
            raw@ == cs@.subrange(start as int, k as int),
        decreases cs.len() - k,
    {
        raw.push(cs[k]);
        k = k + 1;
    }
    proof {
        assert forall|j: int| 0 <= j < raw@.len() implies crate::syntax::word_char(#[trigger] raw@[j]) by {
            assert(raw@[j] == cs@[start + j]);
            lemma_lowered_ident(cs@[start + j]);
        }
        lemma_lowered_ident(cs@[start as int]);
        assert(raw@[0] == cs@[start as int]);
        assert(raw@ == body);
        assert forall|j: int| 0 <= j < body.len() implies crate::syntax::ident_char(#[trigger] body[j]) by {
            assert(body[j] == cs@[start + j]);
        }
        assert(crate::pddl_rules::identifier(body));
    }
    Ok(string_from_chars(&raw))
}

/// A `?variable` or an object name.
fn parse_term(node: &Node) -> (r: Result<Term, Error>)
    requires
        node_ok(*node),
    ensures
        r matches Ok(t) ==> crate::syntax::term_words(t),
        r is Ok <==> v_term(node_v(*node)) is Some,
        r matches Ok(t) ==> v_term(node_v(*node)) == Some(term_v(t)),
        input_error(r),
{
    let value = atom_text(node)?;
    let cs = str_chars(value.as_str());
    if cs.len() > 0 && cs[0] == '?' {
        Ok(Term::Variable(name(node, true)?))
    } else {
        Ok(Term::Constant(name(node, false)?))
    }
}

/// A predicate name other than a logical operator.
fn predicate_name(node: &Node) -> (r: Result<String, Error>)
    requires
        node_ok(*node),
    ensures
        r matches Ok(n) ==> is_word(n@),
        r is Ok <==> v_predicate_name(node_v(*node)) is Some,
        r matches Ok(n) ==> v_predicate_name(node_v(*node)) == Some(n@),
        input_error(r),
{
    let value = name(node, false)?;
    if equals_literal(&value, "and") || equals_literal(&value, "or") || equals_literal(&value, "not")
        || equals_literal(&value, "imply") || equals_literal(&value, "exists") || equals_literal(&value, "forall")
        || equals_literal(&value, "=") {
        let message = concat3("reserved operator '", value.as_str(), "' cannot be a predicate name");
        return Err(at(node, message.as_str()));
    }
    Ok(value)
}

/// `(predicate term ...)`.
fn parse_atom(node: &Node) -> (r: Result<Atom, Error>)
    requires
        node_ok(*node),
    ensures
        r matches Ok(a) ==> crate::syntax::atom_words(a),
        r is Ok <==> v_atom(node_v(*node)) is Some,
        r matches Ok(a) ==> v_atom(node_v(*node)) == Some(atom_v(a)),
        input_error(r),
{
    let items = list(node, "atom")?;
    let ghost nv = nodes_v(items@);
    if items.len() == 0 {
        return Err(at(node, "empty atom"));
    }
    let predicate = predicate_name(&items[0])?;
    let mut terms: Vec<Term> = Vec::new();
    proof {
        assert(terms_v(terms@) =~= Seq::<TermV>::empty());
        assert(v_terms_from(nv, 1) == seq_after(Seq::<TermV>::empty(), v_terms_from(nv, 1))) by {
            match v_terms_from(nv, 1) {
                Some(rest) => {
                    assert(Seq::<TermV>::empty() + rest =~= rest);
                },
                None => {},
            }
        }
    }
    let mut i: usize = 1;
    while i < items.len()
        invariant
            1 <= i <= items@.len(),
            nv == nodes_v(items@),
            nv.len() == items@.len(),
            node_v(*node) == NodeV::List(nv),
            v_predicate_name(nv[0]) == Some(predicate@),
            forall|k: int| 0 <= k < items@.len() ==> #[trigger] nv[k] == node_v(items@[k]),
            forall|k: int| 0 <= k < items@.len() ==> node_ok(#[trigger] items@[k]),
            forall|k: int| 0 <= k < terms@.len() ==> crate::syntax::term_words(#[trigger] terms@[k]),
            v_terms_from(nv, 1) == seq_after(terms_v(terms@), v_terms_from(nv, i as int)),
        decreases items.len() - i,
    {
        let t = match parse_term(&items[i]) {
            Ok(t) => t,
            Err(e) => {
                proof {
                    assert(v_terms_from(nv, i as int) is None);
                }
                return Err(e);
            },
        };
        let ghost before = terms@;
        terms.push(t);
        proof {
            assert forall|k: int| 0 <= k < terms@.len() implies crate::syntax::term_words(#[trigger] terms@[k]) by {
                if k < before.len() {
                    assert(terms@[k] == before[k]);
                }
            }
            assert(terms_v(terms@) =~= terms_v(before).push(term_v(t)));
            match v_terms_from(nv, i + 1) {
                Some(rest) => {
                    assert(terms_v(before) + (seq![term_v(t)] + rest) =~= terms_v(terms@) + rest);
                },
                None => {},
            }
        }
        i = i + 1;
    }
    proof {
        assert(terms_v(terms@) + Seq::<TermV>::empty() =~= terms_v(terms@));
    }
    Ok(Atom { predicate, terms })
}

/// Names from `start` on, grouped before `- type`; names after the last type are of type
/// `object`. With `variables`, names are `?`-prefixed.
fn parse_typed_list(items: &Vec<Node>, start: usize, variables: bool) -> (r: Result<Vec<Binding>, Error>)
    requires
        forall|k: int| 0 <= k < items@.len() ==> node_ok(#[trigger] items@[k]),
    ensures
        r matches Ok(v) ==> crate::syntax::bindings_words(v@),
        r is Ok <==> v_typed_from(nodes_v(items@), start as int, variables, Seq::empty()) is Some,
        r matches Ok(v) ==> v_typed_from(nodes_v(items@), start as int, variables, Seq::empty()) == Some(bindings_v(v@)),
        input_error(r),
{
    let ghost nv = nodes_v(items@);
    let mut result: Vec<Binding> = Vec::new();
    let mut group: Vec<String> = Vec::new();
    proof {
        lemma_nodes_v(items@);
        assert(bindings_v(result@) =~= Seq::<(Seq<char>, Seq<char>)>::empty());
        assert(scope_v(group@) =~= Seq::<Seq<char>>::empty());
        let first = v_typed_from(nv, start as int, variables, Seq::empty());
        assert(first == seq_after(Seq::<(Seq<char>, Seq<char>)>::empty(), first)) by {
            match first {
                Some(rest) => {
                    assert(Seq::<(Seq<char>, Seq<char>)>::empty() + rest =~= rest);
                },
                None => {},
            }
        }
    }
    let mut i: usize = start;
    while i < items.len()
        invariant
            nv == nodes_v(items@),
            nv.len() == items@.len(),
            forall|k: int| 0 <= k < items@.len() ==> #[trigger] nv[k] == node_v(items@[k]),
            forall|k: int| 0 <= k < items@.len() ==> node_ok(#[trigger] items@[k]),
            crate::syntax::bindings_words(result@),
            forall|k: int| 0 <= k < group@.len() ==> is_word((#[trigger] group@[k])@),
            v_typed_from(nv, start as int, variables, Seq::empty())
                == seq_after(bindings_v(result@), v_typed_from(nv, i as int, variables, scope_v(group@))),
        decreases items.len() - i,
    {
        let text = atom_text(&items[i])?;
        if equals_literal(text, "-") {
            if group.len() == 0 || i + 1 >= items.len() {
                return Err(at(&items[i], "malformed typed list"));
            }
            let ty = name(&items[i + 1], false)?;
            let ghost r0 = bindings_v(result@);
            let ghost g0 = scope_v(group@);
            let mut g: usize = 0;
            while g < group.len()
                invariant
                    g <= group@.len(),
                    is_word(ty@),
                    forall|k: int| 0 <= k < group@.len() ==> is_word((#[trigger] group@[k])@),
                    crate::syntax::bindings_words(result@),
                    g0 == scope_v(group@),
                    bindings_v(result@) == r0 + typed(g0.subrange(0, g as int), ty@),
                decreases group.len() - g,
            {
                let ghost before = result@;
                result.push(Binding { name: copy_string(&group[g]), ty: copy_string(&ty) });
                proof {
                    assert forall|k: int| 0 <= k < result@.len() implies is_word((#[trigger] result@[k]).name@) && is_word(result@[k].ty@) by {
                        if k < before.len() {
                            assert(result@[k] == before[k]);
                        }
                    }
                    assert(bindings_v(result@) =~= bindings_v(before).push((group@[g as int]@, ty@)));
                    assert(typed(g0.subrange(0, g as int + 1), ty@) =~= typed(g0.subrange(0, g as int), ty@).push((g0[g as int], ty@)));
                }
                g = g + 1;
            }
            proof {
                assert(g0.subrange(0, g0.len() as int) =~= g0);
                match v_typed_from(nv, i + 2, variables, Seq::empty()) {
                    Some(rest) => {
                        assert(r0 + (typed(g0, ty@) + rest) =~= bindings_v(result@) + rest);
                    },
                    None => {},
                }
            }
            group = Vec::new();
            proof {
                assert(scope_v(group@) =~= Seq::<Seq<char>>::empty());
            }
            i = i + 2;
        } else {
            let n = name(&items[i], variables)?;
            let ghost before = group@;
            group.push(n);
            proof {
                assert forall|k: int| 0 <= k < group@.len() implies is_word((#[trigger] group@[k])@) by {
                    if k < before.len() {
                        assert(group@[k] == before[k]);
                    }
                }
                assert(scope_v(group@) =~= scope_v(before).push(n@));
            }
            i = i + 1;
        }
    }
    let ghost r0 = bindings_v(result@);
    let ghost g0 = scope_v(group@);
    let object = String::from_str("object");
    let mut g: usize = 0;
    while g < group.len()
        invariant
            g <= group@.len(),
            forall|k: int| 0 <= k < group@.len() ==> is_word((#[trigger] group@[k])@),
            crate::syntax::bindings_words(result@),
            object@ == "object"@,
            g0 == scope_v(group@),
            bindings_v(result@) == r0 + typed(g0.subrange(0, g as int), "object"@),
        decreases group.len() - g,
    {
        let ghost before = result@;
        proof {
            crate::syntax::lemma_object_word();
        }
        result.push(Binding { name: copy_string(&group[g]), ty: copy_string(&object) });
        proof {
            assert forall|k: int| 0 <= k < result@.len() implies is_word((#[trigger] result@[k]).name@) && is_word(result@[k].ty@) by {
                if k < before.len() {
                    assert(result@[k] == before[k]);
                }
            }
            assert(bindings_v(result@) =~= bindings_v(before).push((group@[g as int]@, "object"@)));
            assert(typed(g0.subrange(0, g as int + 1), "object"@) =~= typed(g0.subrange(0, g as int), "object"@).push((g0[g as int], "object"@)));
        }
        g = g + 1;
    }
    proof {
        assert(g0.subrange(0, g0.len() as int) =~= g0);
    }
    Ok(result)
}

/// A formula, nested at most `MAX_LIST_DEPTH` deep counting enclosing formulas (`depth`).
fn parse_formula(node: &Node, depth: usize) -> (r: Result<Formula, Error>)
    requires
        node_ok(*node),
        depth <= MAX_LIST_DEPTH + 1,
    ensures
        r matches Ok(f) ==> crate::syntax::formula_words(f),
        r is Ok <==> v_formula(node_v(*node), depth as int) is Some,
        r matches Ok(f) ==> v_formula(node_v(*node), depth as int) == Some(formula_v(f)),
        input_error(r),
    decreases MAX_LIST_DEPTH + 1 - depth,
{
    if depth > MAX_LIST_DEPTH {
        return Err(at(node, "maximum formula nesting depth exceeded"));
    }
    let items = list(node, "formula")?;
    let ghost nv = nodes_v(items@);
    if items.len() == 0 {
        return Err(at(node, "empty formula"));
    }
    let op = atom_text(&items[0])?;
    if equals_literal(op, "and") || equals_literal(op, "or") {
        let mut children: Vec<Formula> = Vec::new();
        proof {
            assert(formulas_v(children@) =~= Seq::<FormulaV>::empty());
            let first = v_formulas_from(nv, 1, depth + 1);
            assert(first == seq_after(Seq::<FormulaV>::empty(), first)) by {
                match first {
                    Some(rest) => {
                        assert(Seq::<FormulaV>::empty() + rest =~= rest);
                    },
                    None => {},
                }
            }
        }
        let mut i: usize = 1;
        while i < items.len()
            invariant
                1 <= i <= items@.len(),
                depth <= MAX_LIST_DEPTH,
                node_v(*node) == NodeV::List(nv),
                nv[0] == NodeV::Atom(op@),
                op@ == "and"@ || op@ == "or"@,
                nv == nodes_v(items@),
                nv.len() == items@.len(),
                forall|k: int| 0 <= k < items@.len() ==> #[trigger] nv[k] == node_v(items@[k]),
                forall|k: int| 0 <= k < items@.len() ==> node_ok(#[trigger] items@[k]),
                forall|k: int| 0 <= k < children@.len() ==> crate::syntax::formula_words(#[trigger] children@[k]),
                v_formulas_from(nv, 1, depth + 1) == seq_after(formulas_v(children@), v_formulas_from(nv, i as int, depth + 1)),
            decreases items.len() - i,
        {
            let child = match parse_formula(&items[i], depth + 1) {
                Ok(f) => f,
                Err(e) => {
                    proof {
                        assert(v_formulas_from(nv, i as int, depth + 1) is None);
                    }
                    return Err(e);
                },
            };
            let ghost before = children@;
            children.push(child);
            proof {
                assert forall|k: int| 0 <= k < children@.len() implies crate::syntax::formula_words(#[trigger] children@[k]) by {
                    if k < before.len() {
                        assert(children@[k] == before[k]);
                    }
                }
                lemma_formulas_v(before);
                lemma_formulas_v(children@);
                assert(formulas_v(children@) =~= formulas_v(before).push(formula_v(child)));
                match v_formulas_from(nv, i + 1, depth + 1) {
                    Some(rest) => {
                        assert(formulas_v(before) + (seq![formula_v(child)] + rest) =~= formulas_v(children@) + rest);
                    },
                    None => {},
                }
            }
            i = i + 1;
        }
        proof {
            crate::syntax::lemma_formulas_words(children@);
            assert(formulas_v(children@) + Seq::<FormulaV>::empty() =~= formulas_v(children@));
        }
        return Ok(if equals_literal(op, "and") { Formula::And(children) } else { Formula::Or(children) });
    }
    if equals_literal(op, "not") {
        if items.len() != 2 {
            return Err(at(node, "not requires exactly one formula"));
        }
        let inner = parse_formula(&items[1], depth + 1)?;
        return Ok(Formula::Not(Box::new(inner)));
    }
    if equals_literal(op, "imply") {
        if items.len() != 3 {
            return Err(at(node, "imply requires exactly two formulas"));
        }
        let left = parse_formula(&items[1], depth + 1)?;
        let right = parse_formula(&items[2], depth + 1)?;
        return Ok(Formula::Implies(Box::new(left), Box::new(right)));
    }
    if equals_literal(op, "exists") || equals_literal(op, "forall") {
        if items.len() != 3 {
            return Err(at(node, "quantifier requires bindings and one formula"));
        }
        let binders = list(&items[1], "quantifier bindings")?;
        let bindings = parse_typed_list(binders, 0, true)?;
        let body = parse_formula(&items[2], depth + 1)?;
        return Ok(if equals_literal(op, "exists") {
            Formula::Exists(bindings, Box::new(body))
        } else {
            Formula::Forall(bindings, Box::new(body))
        });
    }
    if equals_literal(op, "=") {
        if items.len() != 3 {
            return Err(at(node, "equality requires exactly two terms"));
        }
        let left = parse_term(&items[1])?;
        let right = parse_term(&items[2])?;
        return Ok(Formula::Equal(left, right));
    }
    if equals_literal(op, ":when") || equals_literal(op, "when") || equals_literal(op, "increase")
        || equals_literal(op, "decrease") || equals_literal(op, "assign") {
        let message = concat3("unsupported construct '", op.as_str(), "'");
        return Err(at(node, message.as_str()));
    }
    let a = parse_atom(node)?;
    Ok(Formula::Atom(a))
}


// ----------------------------------------------------------------------------------------------
// Sections
// ----------------------------------------------------------------------------------------------

/// The sections found so far, as keys and positions.
pub open spec fn sections_view(v: Seq<(String, usize)>) -> Seq<(Seq<char>, int)> {
    v.map_values(|e: (String, usize)| (e.0@, e.1 as int))
}

/// The items of a section node whose head is `expected`; the contents start at index 1.
fn section_items<'a>(node: &'a Node, expected: &str) -> (r: Result<&'a Vec<Node>, Error>)
    requires
        node_ok(*node),
    ensures
        r matches Ok(items) ==> items@.len() >= 1 && forall|k: int| 0 <= k < items@.len() ==> node_ok(#[trigger] items@[k]),
        r is Ok <==> v_section(node_v(*node), expected@) is Some,
        r matches Ok(items) ==> v_section(node_v(*node), expected@) == Some(nodes_v(items@)),
        r matches Ok(items) ==> nodes_v(items@).len() == items@.len()
            && forall|k: int| 0 <= k < items@.len() ==> #[trigger] nodes_v(items@)[k] == node_v(items@[k]),
        input_error(r),
{
    let items = list(node, "section")?;
    expect_head(items, expected, node)?;
    Ok(items)
}

/// The sections from index `start` on, each keyed by its head, keys unique; `:action`
/// sections are skipped when `allow_actions`.
fn unique_sections(items: &Vec<Node>, start: usize, allow_actions: bool) -> (r: Result<Vec<(String, usize)>, Error>)
    requires
        forall|k: int| 0 <= k < items@.len() ==> node_ok(#[trigger] items@[k]),
    ensures
        r matches Ok(v) ==> forall|k: int| 0 <= k < v@.len() ==> (#[trigger] v@[k]).1 < items@.len(),
        r is Ok <==> v_sections_from(nodes_v(items@), start as int, allow_actions, Seq::empty()) is Some,
        r matches Ok(v) ==> v_sections_from(nodes_v(items@), start as int, allow_actions, Seq::empty()) == Some(sections_view(v@)),
        input_error(r),
{
    let ghost nv = nodes_v(items@);
    let mut sections: Vec<(String, usize)> = Vec::new();
    proof {
        lemma_nodes_v(items@);
        assert(sections_view(sections@) =~= Seq::<(Seq<char>, int)>::empty());
    }
    let mut i: usize = start;
    while i < items.len()
        invariant
            nv == nodes_v(items@),
            nv.len() == items@.len(),
            forall|k: int| 0 <= k < items@.len() ==> #[trigger] nv[k] == node_v(items@[k]),
            forall|k: int| 0 <= k < items@.len() ==> node_ok(#[trigger] items@[k]),
            forall|k: int| 0 <= k < sections@.len() ==> (#[trigger] sections@[k]).1 < items@.len(),
            start <= i,
            v_sections_from(nv, start as int, allow_actions, Seq::empty())
                == v_sections_from(nv, i as int, allow_actions, sections_view(sections@)),
        decreases items.len() - i,
    {
        let node = &items[i];
        let parts = list(node, "section")?;
        if parts.len() == 0 {
            return Err(at(node, "empty section"));
        }
        let key = atom_text(&parts[0])?;
        if !(allow_actions && equals_literal(key, ":action")) {
            let ghost pv = nodes_v(parts@);
            let mut j: usize = 0;
            while j < sections.len()
                invariant
                    j <= sections@.len(),
                    forall|k: int| 0 <= k < j ==> (#[trigger] sections@[k]).0@ != key@,
                    i < nv.len(),
                    nv == nodes_v(items@),
                    nv[i as int] == NodeV::List(pv),
                    pv.len() > 0,
                    pv[0] == NodeV::Atom(key@),
                    !(allow_actions && key@ == ":action"@),
                    v_sections_from(nv, start as int, allow_actions, Seq::empty())
                        == v_sections_from(nv, i as int, allow_actions, sections_view(sections@)),
                decreases sections.len() - j,
            {
                if sections[j].0 == *key {
                    proof {
                        assert(sections_view(sections@)[j as int].0 == key@);
                        assert(v_sections_from(nv, i as int, allow_actions, sections_view(sections@)) is None);
                    }
                    let message = concat3("duplicate section '", key.as_str(), "'");
                    return Err(at(node, message.as_str()));
                }
                j = j + 1;
            }
            let ghost before = sections@;
            proof {
                assert(!exists|k: int| 0 <= k < sections_view(before).len() && (#[trigger] sections_view(before)[k]).0 == key@) by {
                    if exists|k: int| 0 <= k < sections_view(before).len() && (#[trigger] sections_view(before)[k]).0 == key@ {
                        let k = choose|k: int| 0 <= k < sections_view(before).len() && (#[trigger] sections_view(before)[k]).0 == key@;
                        assert(before[k].0@ == key@);
                    }
                }
            }
            sections.push((copy_string(key), i));
            proof {
                assert forall|k: int| 0 <= k < sections@.len() implies (#[trigger] sections@[k]).1 < items@.len() by {
                    if k < before.len() {
                        assert(sections@[k] == before[k]);
                    }
                }
                assert(sections_view(sections@) =~= sections_view(before).push((key@, i as int)));
            }
        }
        i = i + 1;
    }
    Ok(sections)
}

/// The position of the section keyed `key`, if present.
fn find_section(sections: &Vec<(String, usize)>, key: &str) -> (r: Option<usize>)
    ensures
        r matches Some(p) ==> exists|k: int| 0 <= k < sections@.len() && (#[trigger] sections@[k]).1 == p,
        r is Some <==> find(sections_view(sections@), key@) is Some,
        r matches Some(p) ==> find(sections_view(sections@), key@) == Some(p as int),
{
    let ghost sv = sections_view(sections@);
    let mut j: usize = 0;
    while j < sections.len()
        invariant
            j <= sections@.len(),
            sv == sections_view(sections@),
            find(sv, key@) == find_from(sv, key@, j as int),
        decreases sections.len() - j,
    {
        if equals_literal(&sections[j].0, key) {
            return Some(sections[j].1);
        }
        j = j + 1;
    }
    None
}

/// Whether `key` is among the allowed section keys of a domain (or of a problem).
fn known_section(key: &String, domain: bool) -> (r: bool)
    ensures
        r == known_key(key@, domain),
{
    if domain {
        equals_literal(key, ":requirements") || equals_literal(key, ":types") || equals_literal(key, ":constants")
            || equals_literal(key, ":predicates")
    } else {
        equals_literal(key, ":domain") || equals_literal(key, ":objects") || equals_literal(key, ":init")
            || equals_literal(key, ":goal")
    }
}

/// The requirements the subset supports.
fn validate_requirements(node: &Node) -> (r: Result<(), Error>)
    requires
        node_ok(*node),
    ensures
        r is Ok <==> v_requirements(node_v(*node)),
        input_error(r),
{
    let items = section_items(node, ":requirements")?;
    let ghost nv = nodes_v(items@);
    let mut i: usize = 1;
    while i < items.len()
        invariant
            1 <= i <= items@.len(),
            nv == nodes_v(items@),
            v_section(node_v(*node), ":requirements"@) == Some(nv),
            nv.len() == items@.len(),
            forall|k: int| 0 <= k < items@.len() ==> #[trigger] nv[k] == node_v(items@[k]),
            forall|k: int| 0 <= k < items@.len() ==> node_ok(#[trigger] items@[k]),
            forall|k: int| 1 <= k < i ==> (#[trigger] nv[k] matches NodeV::Atom(s) && supported_requirement(s)),
        decreases items.len() - i,
    {
        let value = atom_text(&items[i])?;
        let accepted = equals_literal(value, ":strips") || equals_literal(value, ":typing")
            || equals_literal(value, ":negative-preconditions") || equals_literal(value, ":disjunctive-preconditions")
            || equals_literal(value, ":equality") || equals_literal(value, ":existential-preconditions")
            || equals_literal(value, ":universal-preconditions") || equals_literal(value, ":quantified-preconditions");
        if !accepted {
            proof {
                assert(!(nv[i as int] matches NodeV::Atom(s) && supported_requirement(s)));
            }
            let message = concat3("unsupported requirement '", value.as_str(), "'");
            return Err(at(&items[i], message.as_str()));
        }
        i = i + 1;
    }
    Ok(())
}

/// `(define (domain name) ...)` or `(define (problem name) ...)`: the name and the sections,
/// checked against the allowed and required keys.
fn parse_header(items: &Vec<Node>, root: &Node, domain: bool) -> (r: Result<(String, Vec<(String, usize)>), Error>)
    requires
        forall|k: int| 0 <= k < items@.len() ==> node_ok(#[trigger] items@[k]),
    ensures
        r matches Ok(h) ==> is_word(h.0@) && forall|k: int| 0 <= k < h.1@.len() ==> (#[trigger] h.1@[k]).1 < items@.len(),
        r is Ok <==> v_header(nodes_v(items@), domain) is Some,
        r matches Ok(h) ==> v_header(nodes_v(items@), domain) == Some((h.0@, sections_view(h.1@))),
        input_error(r),
{
    let ghost nv = nodes_v(items@);
    proof {
        lemma_nodes_v(items@);
    }
    if items.len() < 2 {
        return Err(at(root, "incomplete define form"));
    }
    let header = list(&items[1], "domain/problem header")?;
    let kind = if domain { "domain" } else { "problem" };
    if header.len() != 2 {
        let message = concat3("expected '(", kind, " name)' header");
        return Err(at(&items[1], message.as_str()));
    }
    let word = atom_text(&header[0])?;
    if !equals_literal(word, kind) {
        let message = concat3("expected '(", kind, " name)' header");
        return Err(at(&items[1], message.as_str()));
    }
    let entity_name = name(&header[1], false)?;
    let sections = unique_sections(items, 2, domain)?;
    let ghost sv = sections_view(sections@);
    // Report the unknown key that sorts first.
    let mut unknown: Option<usize> = None;
    let mut j: usize = 0;
    while j < sections.len()
        invariant
            j <= sections@.len(),
            sv == sections_view(sections@),
            unknown matches Some(u) ==> u < sections@.len(),
            unknown is None <==> forall|k: int| 0 <= k < j ==> known_key(#[trigger] sv[k].0, domain),
        decreases sections.len() - j,
    {
        proof {
            assert(sv[j as int].0 == sections@[j as int].0@);
        }
        if !known_section(&sections[j].0, domain) {
            unknown = match unknown {
                None => Some(j),
                Some(u) => if crate::order::compare_strings(&sections[j].0, &sections[u].0) < 0 { Some(j) } else { Some(u) },
            };
        }
        j = j + 1;
    }
    if let Some(u) = unknown {
        let what = if domain { "unknown domain section '" } else { "unknown problem section '" };
        let message = concat3(what, sections[u].0.as_str(), "'");
        return Err(at(&items[sections[u].1], message.as_str()));
    }
    if domain {
        if find_section(&sections, ":predicates").is_none() {
            return Err(at(root, "domain is missing :predicates"));
        }
        if let Some(p) = find_section(&sections, ":requirements") {
            validate_requirements(&items[p])?;
        }
    } else {
        if find_section(&sections, ":domain").is_none() {
            return Err(at(root, "problem is missing :domain"));
        }
        if find_section(&sections, ":init").is_none() {
            return Err(at(root, "problem is missing :init"));
        }
        if find_section(&sections, ":goal").is_none() {
            return Err(at(root, "problem is missing :goal"));
        }
    }
    Ok((entity_name, sections))
}

/// `(:types name ... - object ...)`: flat types only.
fn parse_types(node: &Node) -> (r: Result<Vec<String>, Error>)
    requires
        node_ok(*node),
    ensures
        r matches Ok(v) ==> forall|k: int| 0 <= k < v@.len() ==> is_word((#[trigger] v@[k])@),
        r is Ok <==> v_types(node_v(*node)) is Some,
        r matches Ok(v) ==> v_types(node_v(*node)) == Some(scope_v(v@)),
        input_error(r),
{
    let items = section_items(node, ":types")?;
    let ghost nv = nodes_v(items@);
    let mut names: Vec<String> = Vec::new();
    let mut group: Vec<String> = Vec::new();
    proof {
        assert(scope_v(names@) =~= Seq::<Seq<char>>::empty());
        assert(scope_v(group@) =~= Seq::<Seq<char>>::empty());
        let first = v_types_from(nv, 1, Seq::empty());
        assert(first == seq_after(Seq::<Seq<char>>::empty(), first)) by {
            match first {
                Some(rest) => {
                    assert(Seq::<Seq<char>>::empty() + rest =~= rest);
                },
                None => {},
            }
        }
    }
    let mut i: usize = 1;
    while i < items.len()
        invariant
            nv == nodes_v(items@),
            v_section(node_v(*node), ":types"@) == Some(nv),
            nv.len() == items@.len(),
            forall|k: int| 0 <= k < items@.len() ==> #[trigger] nv[k] == node_v(items@[k]),
            forall|k: int| 0 <= k < items@.len() ==> node_ok(#[trigger] items@[k]),
            forall|k: int| 0 <= k < names@.len() ==> is_word((#[trigger] names@[k])@),
            forall|k: int| 0 <= k < group@.len() ==> is_word((#[trigger] group@[k])@),
            v_types_from(nv, 1, Seq::empty()) == seq_after(scope_v(names@), v_types_from(nv, i as int, scope_v(group@))),
        decreases items.len() - i,
    {
        let word = atom_text(&items[i])?;
        if equals_literal(word, "-") {
            if group.len() == 0 || i + 1 >= items.len() {
                return Err(at(&items[i], "malformed typed type list"));
            }
            let parent = name(&items[i + 1], false)?;
            if !equals_literal(&parent, "object") {
                return Err(at(&items[i + 1], "hierarchical types are not supported"));
            }
            let ghost n0 = names@;
            let ghost g0 = group@;
            names.append(&mut group);
            proof {
                assert forall|k: int| 0 <= k < names@.len() implies is_word((#[trigger] names@[k])@) by {
                    if k < n0.len() {
                        assert(names@[k] == n0[k]);
                    } else {
                        assert(names@[k] == g0[k - n0.len()]);
                    }
                }
                assert(scope_v(names@) =~= scope_v(n0) + scope_v(g0));
                assert(scope_v(group@) =~= Seq::<Seq<char>>::empty());
                match v_types_from(nv, i + 2, Seq::empty()) {
                    Some(rest) => {
                        assert(scope_v(n0) + (scope_v(g0) + rest) =~= scope_v(names@) + rest);
                    },
                    None => {},
                }
            }
            i = i + 2;
        } else {
            let n = name(&items[i], false)?;
            let ghost before = group@;
            group.push(n);
            proof {
                assert forall|k: int| 0 <= k < group@.len() implies is_word((#[trigger] group@[k])@) by {
                    if k < before.len() {
                        assert(group@[k] == before[k]);
                    }
                }
                assert(scope_v(group@) =~= scope_v(before).push(n@));
            }
            i = i + 1;
        }
    }
    let ghost n0 = names@;
    let ghost g0 = group@;
    names.append(&mut group);
    proof {
        assert forall|k: int| 0 <= k < names@.len() implies is_word((#[trigger] names@[k])@) by {
            if k < n0.len() {
                assert(names@[k] == n0[k]);
            } else {
                assert(names@[k] == g0[k - n0.len()]);
            }
        }
        assert(scope_v(names@) =~= scope_v(n0) + scope_v(g0));
    }
    Ok(names)
}

/// The position of the first binding whose name an earlier binding already has.
fn repeated_name(bindings: &Vec<Binding>) -> (r: Option<usize>)
    ensures
        r is None <==> crate::pddl_rules::distinct_names(bindings_v(bindings@)),
        r matches Some(b) ==> b < bindings@.len(),
{
    let ghost bv = bindings_v(bindings@);
    let mut b: usize = 0;
    while b < bindings.len()
        invariant
            b <= bindings@.len(),
            bv == bindings_v(bindings@),
            forall|x: int, y: int| 0 <= x < y < b ==> bv[x].0 != bv[y].0,
        decreases bindings.len() - b,
    {
        let mut c: usize = 0;
        while c < b
            invariant
                c <= b < bindings@.len(),
                bv == bindings_v(bindings@),
                forall|x: int| 0 <= x < c ==> bv[x].0 != bv[b as int].0,
            decreases b - c,
        {
            if bindings[c].name == bindings[b].name {
                proof {
                    assert(bv[c as int].0 == bv[b as int].0);
                }
                return Some(b);
            }
            c = c + 1;
        }
        b = b + 1;
    }
    None
}

/// `(:predicates (name ?param ... - type ...) ...)`, parameter names unique per predicate.
fn parse_predicates(node: &Node) -> (r: Result<Vec<Predicate>, Error>)
    requires
        node_ok(*node),
    ensures
        r matches Ok(v) ==> forall|i: int| 0 <= i < v@.len() ==> is_word((#[trigger] v@[i]).name@)
            && forall|j: int| 0 <= j < v@[i].parameters@.len() ==> is_word((#[trigger] v@[i].parameters@[j])@),
        r is Ok <==> v_predicates(node_v(*node)) is Some,
        r matches Ok(v) ==> v_predicates(node_v(*node)) == Some(v@.map_values(|x: Predicate| predicate_v(x))),
        input_error(r),
{
    let items = section_items(node, ":predicates")?;
    let ghost nv = nodes_v(items@);
    let mut result: Vec<Predicate> = Vec::new();
    proof {
        let first = v_predicates_from(nv, 1);
        assert(result@.map_values(|x: Predicate| predicate_v(x)) =~= Seq::<(Seq<char>, Seq<Seq<char>>)>::empty());
        assert(first == seq_after(Seq::<(Seq<char>, Seq<Seq<char>>)>::empty(), first)) by {
            match first {
                Some(rest) => {
                    assert(Seq::<(Seq<char>, Seq<Seq<char>>)>::empty() + rest =~= rest);
                },
                None => {},
            }
        }
    }
    let mut i: usize = 1;
    while i < items.len()
        invariant
            1 <= i,
            nv == nodes_v(items@),
            v_section(node_v(*node), ":predicates"@) == Some(nv),
            nv.len() == items@.len(),
            forall|k: int| 0 <= k < items@.len() ==> #[trigger] nv[k] == node_v(items@[k]),
            forall|k: int| 0 <= k < items@.len() ==> node_ok(#[trigger] items@[k]),
            forall|k: int| 0 <= k < result@.len() ==> is_word((#[trigger] result@[k]).name@)
                && forall|j: int| 0 <= j < result@[k].parameters@.len() ==> is_word((#[trigger] result@[k].parameters@[j])@),
            v_predicates_from(nv, 1) == seq_after(result@.map_values(|x: Predicate| predicate_v(x)), v_predicates_from(nv, i as int)),
        decreases items.len() - i,
    {
        let decl = &items[i];
        let fields = list(decl, "predicate declaration")?;
        if fields.len() == 0 {
            return Err(at(decl, "empty predicate declaration"));
        }
        let pname = predicate_name(&fields[0])?;
        let bindings = parse_typed_list(fields, 1, true)?;
        let ghost bv = bindings_v(bindings@);
        if let Some(b) = repeated_name(&bindings) {
            let message = concat3("duplicate predicate parameter '?", bindings[b].name.as_str(), "'");
            return Err(at(decl, message.as_str()));
        }
        let mut parameters: Vec<String> = Vec::new();
        let mut b: usize = 0;
        while b < bindings.len()
            invariant
                b <= bindings@.len(),
                bv == bindings_v(bindings@),
                crate::syntax::bindings_words(bindings@),
                parameters@.len() == b,
                forall|k: int| 0 <= k < parameters@.len() ==> is_word((#[trigger] parameters@[k])@),
                forall|k: int| 0 <= k < parameters@.len() ==> (#[trigger] parameters@[k])@ == bv[k].1,
            decreases bindings.len() - b,
        {
            let ghost before = parameters@;
            parameters.push(copy_string(&bindings[b].ty));
            proof {
                assert forall|k: int| 0 <= k < parameters@.len() implies is_word((#[trigger] parameters@[k])@) && parameters@[k]@ == bv[k].1 by {
                    if k < before.len() {
                        assert(parameters@[k] == before[k]);
                    }
                }
            }
            b = b + 1;
        }
        proof {
            assert(scope_v(parameters@) =~= bv.map_values(|e: (Seq<char>, Seq<char>)| e.1));
        }
        let ghost before = result@;
        let pred = Predicate { name: pname, parameters };
        let ghost pv = predicate_v(pred);
        result.push(pred);
        proof {
            assert forall|k: int| 0 <= k < result@.len() implies is_word((#[trigger] result@[k]).name@)
                && forall|j: int| 0 <= j < result@[k].parameters@.len() ==> is_word((#[trigger] result@[k].parameters@[j])@) by {
                if k < before.len() {
                    assert(result@[k] == before[k]);
                }
            }
            assert(pv.1 =~= scope_v(pred.parameters@));
            assert(crate::pddl_rules::distinct_names(bv));
            assert(v_predicate_decl(nv[i as int]) == Some(pv));
            assert(result@.map_values(|x: Predicate| predicate_v(x)) =~= before.map_values(|x: Predicate| predicate_v(x)).push(pv));
            match v_predicates_from(nv, i + 1) {
                Some(rest) => {
                    assert(before.map_values(|x: Predicate| predicate_v(x)) + (seq![pv] + rest)
                        =~= result@.map_values(|x: Predicate| predicate_v(x)) + rest);
                },
                None => {},
            }
        }
        i = i + 1;
    }
    proof {
        assert(result@.map_values(|x: Predicate| predicate_v(x)) + Seq::<(Seq<char>, Seq<Seq<char>>)>::empty()
            =~= result@.map_values(|x: Predicate| predicate_v(x)));
    }
    Ok(result)
}

/// Atoms, negated atoms, and conjunctions of them, nested at most `MAX_LIST_DEPTH` deep.
fn parse_effect(node: &Node, add: &mut Vec<Atom>, delete: &mut Vec<Atom>, depth: usize) -> (r: Result<(), Error>)
    requires
        node_ok(*node),
        depth <= MAX_LIST_DEPTH + 1,
        forall|j: int| 0 <= j < old(add)@.len() ==> crate::syntax::atom_words(#[trigger] old(add)@[j]),
        forall|j: int| 0 <= j < old(delete)@.len() ==> crate::syntax::atom_words(#[trigger] old(delete)@[j]),
    ensures
        forall|j: int| 0 <= j < final(add)@.len() ==> crate::syntax::atom_words(#[trigger] final(add)@[j]),
        forall|j: int| 0 <= j < final(delete)@.len() ==> crate::syntax::atom_words(#[trigger] final(delete)@[j]),
        r is Ok <==> v_effect(node_v(*node), depth as int) is Some,
        r is Ok ==> old(add)@.len() <= final(add)@.len() && old(delete)@.len() <= final(delete)@.len()
            && final(add)@.subrange(0, old(add)@.len() as int) == old(add)@
            && final(delete)@.subrange(0, old(delete)@.len() as int) == old(delete)@,
        r is Ok ==> v_effect(node_v(*node), depth as int) == Some((
            atoms_v(final(add)@).subrange(old(add)@.len() as int, final(add)@.len() as int),
            atoms_v(final(delete)@).subrange(old(delete)@.len() as int, final(delete)@.len() as int),
        )),
        input_error(r),
    decreases MAX_LIST_DEPTH + 1 - depth,
{
    let ghost a0 = add@;
    let ghost d0 = delete@;
    let ghost empty = Seq::<(Seq<char>, Seq<TermV>)>::empty();
    if depth > MAX_LIST_DEPTH {
        return Err(at(node, "maximum effect nesting depth exceeded"));
    }
    let fields = list(node, "effect")?;
    let ghost nv = nodes_v(fields@);
    if fields.len() == 0 {
        return Err(at(node, "empty effect"));
    }
    let op = atom_text(&fields[0])?;
    if equals_literal(op, "and") {
        proof {
            assert(atoms_v(add@).subrange(a0.len() as int, add@.len() as int) =~= empty);
            assert(atoms_v(delete@).subrange(d0.len() as int, delete@.len() as int) =~= empty);
            let first = v_effects_from(nv, 1, depth + 1);
            assert(first == effects_after((empty, empty), first)) by {
                match first {
                    Some((x, y)) => {
                        assert(empty + x =~= x);
                        assert(empty + y =~= y);
                    },
                    None => {},
                }
            }
            assert(add@.subrange(0, a0.len() as int) =~= a0);
            assert(delete@.subrange(0, d0.len() as int) =~= d0);
        }
        let mut i: usize = 1;
        while i < fields.len()
            invariant
                1 <= i <= fields@.len(),
                depth <= MAX_LIST_DEPTH,
                node_v(*node) == NodeV::List(nv),
                nv[0] == NodeV::Atom(op@),
                op@ == "and"@,
                nv == nodes_v(fields@),
                nv.len() == fields@.len(),
                forall|k: int| 0 <= k < fields@.len() ==> #[trigger] nv[k] == node_v(fields@[k]),
                forall|k: int| 0 <= k < fields@.len() ==> node_ok(#[trigger] fields@[k]),
                forall|j: int| 0 <= j < add@.len() ==> crate::syntax::atom_words(#[trigger] add@[j]),
                forall|j: int| 0 <= j < delete@.len() ==> crate::syntax::atom_words(#[trigger] delete@[j]),
                a0 == old(add)@,
                d0 == old(delete)@,
                a0.len() <= add@.len(),
                d0.len() <= delete@.len(),
                add@.subrange(0, a0.len() as int) == a0,
                delete@.subrange(0, d0.len() as int) == d0,
                v_effects_from(nv, 1, depth + 1) == effects_after(
                    (atoms_v(add@).subrange(a0.len() as int, add@.len() as int), atoms_v(delete@).subrange(d0.len() as int, delete@.len() as int)),
                    v_effects_from(nv, i as int, depth + 1),
                ),
            decreases fields.len() - i,
        {
            let ghost add_before = add@;
            let ghost delete_before = delete@;
            match parse_effect(&fields[i], add, delete, depth + 1) {
                Ok(()) => {},
                Err(e) => {
                    proof {
                        assert(v_effects_from(nv, i as int, depth + 1) is None);
                    }
                    return Err(e);
                },
            }
            proof {
                let (x, y) = v_effect(nv[i as int], depth + 1)->0;
                let pa = atoms_v(add_before).subrange(a0.len() as int, add_before.len() as int);
                let pd = atoms_v(delete_before).subrange(d0.len() as int, delete_before.len() as int);
                assert(atoms_v(add@).subrange(a0.len() as int, add@.len() as int) =~= pa + x) by {
                    assert forall|k: int| 0 <= k < add_before.len() implies #[trigger] add@[k] == add_before[k] by {
                        assert(add@.subrange(0, add_before.len() as int)[k] == add@[k]);
                    }
                }
                assert(atoms_v(delete@).subrange(d0.len() as int, delete@.len() as int) =~= pd + y) by {
                    assert forall|k: int| 0 <= k < delete_before.len() implies #[trigger] delete@[k] == delete_before[k] by {
                        assert(delete@.subrange(0, delete_before.len() as int)[k] == delete@[k]);
                    }
                }
                assert(add@.subrange(0, a0.len() as int) =~= a0) by {
                    assert forall|k: int| 0 <= k < a0.len() implies #[trigger] add@[k] == a0[k] by {
                        assert(add@.subrange(0, add_before.len() as int)[k] == add@[k]);
                        assert(add_before.subrange(0, a0.len() as int)[k] == add_before[k]);
                    }
                }
                assert(delete@.subrange(0, d0.len() as int) =~= d0) by {
                    assert forall|k: int| 0 <= k < d0.len() implies #[trigger] delete@[k] == d0[k] by {
                        assert(delete@.subrange(0, delete_before.len() as int)[k] == delete@[k]);
                        assert(delete_before.subrange(0, d0.len() as int)[k] == delete_before[k]);
                    }
                }
                match v_effects_from(nv, i + 1, depth + 1) {
                    Some((x2, y2)) => {
                        assert(pa + (x + x2) =~= (pa + x) + x2);
                        assert(pd + (y + y2) =~= (pd + y) + y2);
                    },
                    None => {},
                }
            }
            i = i + 1;
        }
        proof {
            let pa = atoms_v(add@).subrange(a0.len() as int, add@.len() as int);
            let pd = atoms_v(delete@).subrange(d0.len() as int, delete@.len() as int);
            assert(pa + empty =~= pa);
            assert(pd + empty =~= pd);
        }
        return Ok(());
    }
    if equals_literal(op, "not") {
        if fields.len() != 2 {
            return Err(at(node, "negative effect requires one atom"));
        }
        let a = parse_atom(&fields[1])?;
        let ghost before = delete@;
        let ghost av = atom_v(a);
        delete.push(a);
        proof {
            assert forall|j: int| 0 <= j < delete@.len() implies crate::syntax::atom_words(#[trigger] delete@[j]) by {
                if j < before.len() {
                    assert(delete@[j] == before[j]);
                }
            }
            assert(atoms_v(delete@).subrange(before.len() as int, delete@.len() as int) =~= seq![av]);
            assert(atoms_v(add@).subrange(add@.len() as int, add@.len() as int) =~= empty);
            assert(delete@.subrange(0, before.len() as int) =~= before);
            assert(add@.subrange(0, add@.len() as int) =~= add@);
        }
        return Ok(());
    }
    if equals_literal(op, "forall") || equals_literal(op, "when") || equals_literal(op, "increase")
        || equals_literal(op, "decrease") || equals_literal(op, "assign") {
        let message = concat3("unsupported effect construct '", op.as_str(), "'");
        return Err(at(node, message.as_str()));
    }
    let a = parse_atom(node)?;
    let ghost before = add@;
    let ghost av = atom_v(a);
    add.push(a);
    proof {
        assert forall|j: int| 0 <= j < add@.len() implies crate::syntax::atom_words(#[trigger] add@[j]) by {
            if j < before.len() {
                assert(add@[j] == before[j]);
            }
        }
        assert(atoms_v(add@).subrange(before.len() as int, add@.len() as int) =~= seq![av]);
        assert(atoms_v(delete@).subrange(delete@.len() as int, delete@.len() as int) =~= empty);
        assert(add@.subrange(0, before.len() as int) =~= before);
        assert(delete@.subrange(0, delete@.len() as int) =~= delete@);
    }
    Ok(())
}

/// Where a field value stands, as a position.
pub open spec fn slot_v(s: Option<usize>) -> Option<int> {
    match s {
        Some(p) => Some(p as int),
        None => None,
    }
}

/// `(:action name :parameters (...) :precondition formula :effect effect)`; every field is
/// optional and appears at most once.
fn parse_action(node: &Node) -> (r: Result<Action, Error>)
    requires
        node_ok(*node),
    ensures
        r matches Ok(a) ==> crate::dsl::action_words(a),
        r is Ok <==> v_action(node_v(*node)) is Some,
        r matches Ok(a) ==> v_action(node_v(*node)) == Some(action_v(a)),
        input_error(r),
{
    let fields = list(node, "PDDL action")?;
    let ghost nv = nodes_v(fields@);
    if fields.len() < 2 {
        return Err(at(node, ":action requires a name"));
    }
    let action_name = name(&fields[1], false)?;
    if fields.len() % 2 != 0 {
        return Err(at(node, "PDDL action fields must be key/value pairs"));
    }
    let mut parameters_at: Option<usize> = None;
    let mut precondition_at: Option<usize> = None;
    let mut effect_at: Option<usize> = None;
    let mut j: usize = 2;
    while j < fields.len() - 1
        invariant
            2 <= j,
            nv == nodes_v(fields@),
            nv.len() == fields@.len(),
            node_v(*node) == NodeV::List(nv),
            fields@.len() >= 2,
            fields@.len() % 2 == 0,
            v_name(nv[1], false) == Some(action_name@),
            forall|k: int| 0 <= k < fields@.len() ==> #[trigger] nv[k] == node_v(fields@[k]),
            forall|k: int| 0 <= k < fields@.len() ==> node_ok(#[trigger] fields@[k]),
            parameters_at matches Some(p) ==> p < fields@.len(),
            precondition_at matches Some(p) ==> p < fields@.len(),
            effect_at matches Some(p) ==> p < fields@.len(),
            v_slots_from(nv, 2, None, None, None)
                == v_slots_from(nv, j as int, slot_v(parameters_at), slot_v(precondition_at), slot_v(effect_at)),
        decreases fields.len() - j,
    {
        let value_at = j + 1;
        let key = atom_text(&fields[j])?;
        if equals_literal(key, ":parameters") {
            if parameters_at.is_some() {
                let message = concat3("duplicate action field '", key.as_str(), "'");
                return Err(at(&fields[j], message.as_str()));
            }
            parameters_at = Some(value_at);
        } else if equals_literal(key, ":precondition") {
            if precondition_at.is_some() {
                let message = concat3("duplicate action field '", key.as_str(), "'");
                return Err(at(&fields[j], message.as_str()));
            }
            precondition_at = Some(value_at);
        } else if equals_literal(key, ":effect") {
            if effect_at.is_some() {
                let message = concat3("duplicate action field '", key.as_str(), "'");
                return Err(at(&fields[j], message.as_str()));
            }
            effect_at = Some(value_at);
        } else {
            let message = concat3("unknown action field '", key.as_str(), "'");
            return Err(at(&fields[j], message.as_str()));
        }
        j = value_at + 1;
    }
    proof {
        assert(v_slots_from(nv, 2, None, None, None) == Some((slot_v(parameters_at), slot_v(precondition_at), slot_v(effect_at))));
    }
    let parameters = match parameters_at {
        Some(p) => {
            let binders = list(&fields[p], "action parameters")?;
            parse_typed_list(binders, 0, true)?
        },
        None => {
            let v: Vec<Binding> = Vec::new();
            proof {
                assert(bindings_v(v@) =~= Seq::<(Seq<char>, Seq<char>)>::empty());
            }
            v
        },
    };
    let precondition = match precondition_at {
        Some(p) => parse_formula(&fields[p], 0)?,
        None => {
            let f = Formula::And(Vec::new());
            proof {
                assert(crate::syntax::formulas_words(Seq::<Formula>::empty()));
                assert(formulas_v(Seq::<Formula>::empty()) =~= Seq::<FormulaV>::empty());
            }
            f
        },
    };
    let mut add: Vec<Atom> = Vec::new();
    let mut delete: Vec<Atom> = Vec::new();
    if let Some(p) = effect_at {
        parse_effect(&fields[p], &mut add, &mut delete, 0)?;
    }
    proof {
        assert(atoms_v(add@).subrange(0, add@.len() as int) =~= atoms_v(add@));
        assert(atoms_v(delete@).subrange(0, delete@.len() as int) =~= atoms_v(delete@));
        if effect_at is None {
            assert(atoms_v(add@) =~= Seq::<(Seq<char>, Seq<TermV>)>::empty());
            assert(atoms_v(delete@) =~= Seq::<(Seq<char>, Seq<TermV>)>::empty());
        }
    }
    let action = Action { name: action_name, parameters, precondition, add, delete };
    proof {
        assert(action_v(action).add == atoms_v(action.add@));
        assert(action_v(action).delete == atoms_v(action.delete@));
    }
    Ok(action)
}

/// `(:init atom ...)`: positive ground atoms only.
fn parse_initial(node: &Node) -> (r: Result<State, Error>)
    requires
        node_ok(*node),
    ensures
        r matches Ok(st) ==> crate::syntax::state_words(st@),
        r is Ok <==> v_initial(node_v(*node)) is Some,
        r matches Ok(st) ==> v_initial(node_v(*node)) == Some(st@),
        input_error(r),
{
    let items = section_items(node, ":init")?;
    let ghost nv = nodes_v(items@);
    let mut state = State::new();
    proof {
        let first = v_facts_from(nv, 1);
        assert(first == facts_after(state@, first)) by {
            match first {
                Some(x) => {
                    assert(state@ + x =~= x);
                },
                None => {},
            }
        }
    }
    let mut i: usize = 1;
    while i < items.len()
        invariant
            1 <= i,
            nv == nodes_v(items@),
            v_section(node_v(*node), ":init"@) == Some(nv),
            nv.len() == items@.len(),
            forall|k: int| 0 <= k < items@.len() ==> #[trigger] nv[k] == node_v(items@[k]),
            forall|k: int| 0 <= k < items@.len() ==> node_ok(#[trigger] items@[k]),
            crate::syntax::state_words(state@),
            v_facts_from(nv, 1) == facts_after(state@, v_facts_from(nv, i as int)),
        decreases items.len() - i,
    {
        let fact = &items[i];
        if head_is(fact, "not") {
            proof {
                assert(v_atom(nv[i as int]) is None);
            }
            return Err(at(fact, "negative initial facts are not supported; use closed-world semantics"));
        }
        let a = match parse_atom(fact) {
            Ok(a) => a,
            Err(e) => {
                return Err(e);
            },
        };
        let ghost tv = terms_v(a.terms@);
        let mut arguments: Vec<String> = Vec::new();
        let mut t: usize = 0;
        while t < a.terms.len()
            invariant
                t <= a.terms@.len(),
                tv == terms_v(a.terms@),
                crate::syntax::atom_words(a),
                crate::syntax::state_words(state@),
                nv == nodes_v(items@),
                v_section(node_v(*node), ":init"@) == Some(nv),
                v_facts_from(nv, 1) == facts_after(state@, v_facts_from(nv, i as int)),
                0 <= i < nv.len(),
                v_atom(nv[i as int]) == Some(atom_v(a)),
                arguments@.len() == t,
                forall|k: int| 0 <= k < arguments@.len() ==> is_word((#[trigger] arguments@[k])@),
                forall|k: int| 0 <= k < t ==> #[trigger] tv[k] == TermV::Obj(arguments@[k]@),
            decreases a.terms.len() - t,
        {
            match &a.terms[t] {
                Term::Constant(c) => {
                    proof {
                        assert(crate::syntax::term_words(a.terms@[t as int]));
                    }
                    let ghost before = arguments@;
                    arguments.push(copy_string(c));
                    proof {
                        assert forall|k: int| 0 <= k < t + 1 implies #[trigger] tv[k] == TermV::Obj(arguments@[k]@) by {
                            if k < t {
                                assert(arguments@[k] == before[k]);
                            }
                        }
                    }
                },
                Term::Variable(_) => {
                    proof {
                        assert(!(tv[t as int] is Obj));
                        assert(!ground_terms(tv));
                    }
                    return Err(at(fact, "initial atoms cannot contain variables"));
                },
            }
            t = t + 1;
        }
        let ground = GroundAtom { predicate: a.predicate, arguments };
        let ghost old_state = state@;
        proof {
            assert forall|k: int| 0 <= k < ground@.1.len() implies is_word(#[trigger] ground@.1[k]) by {
                assert(ground@.1[k] == ground.arguments@[k]@);
            }
            assert(ground_terms(tv));
            assert(object_names(tv) =~= ground@.1);
        }
        state.insert(ground);
        proof {
            match v_facts_from(nv, i + 1) {
                Some(x) => {
                    assert(old_state + (set![ground@] + x) =~= state@ + x);
                },
                None => {},
            }
        }
        i = i + 1;
    }
    proof {
        assert(state@ + Set::<crate::model::AtomV>::empty() =~= state@);
    }
    Ok(state)
}

/// A section holding exactly one formula.
fn parse_section_formula(node: &Node, section: &str) -> (r: Result<Formula, Error>)
    requires
        node_ok(*node),
    ensures
        r matches Ok(f) ==> crate::syntax::formula_words(f),
        r is Ok <==> v_section_formula(node_v(*node), section@) is Some,
        r matches Ok(f) ==> v_section_formula(node_v(*node), section@) == Some(formula_v(f)),
        input_error(r),
{
    let items = section_items(node, section)?;
    if items.len() != 2 {
        let message = crate::text::concat(section, " section requires exactly one formula");
        return Err(at(node, message.as_str()));
    }
    parse_formula(&items[1], 0)
}

/// The typed names of an optional `:constants` or `:objects` section.
fn typed_section(items: &Vec<Node>, sections: &Vec<(String, usize)>, key: &str) -> (r: Result<Vec<Binding>, Error>)
    requires
        forall|k: int| 0 <= k < items@.len() ==> node_ok(#[trigger] items@[k]),
        forall|k: int| 0 <= k < sections@.len() ==> (#[trigger] sections@[k]).1 < items@.len(),
    ensures
        r matches Ok(v) ==> crate::syntax::bindings_words(v@),
        r is Ok <==> v_typed_section(nodes_v(items@), sections_view(sections@), key@) is Some,
        r matches Ok(v) ==> v_typed_section(nodes_v(items@), sections_view(sections@), key@) == Some(bindings_v(v@)),
        input_error(r),
{
    proof {
        lemma_nodes_v(items@);
    }
    match find_section(sections, key) {
        Some(p) => {
            let entries = section_items(&items[p], key)?;
            parse_typed_list(entries, 1, false)
        },
        None => {
            let v: Vec<Binding> = Vec::new();
            proof {
                assert(bindings_v(v@) =~= Seq::<(Seq<char>, Seq<char>)>::empty());
            }
            Ok(v)
        },
    }
}

/// Parses a PDDL domain and problem into one task named after the problem.
///
/// Accepted input is ASCII throughout, comments included, and splits into tokens as
/// `sexp_lex_from` describes; a lexical error in the domain, or in the problem after a
/// well-formed domain tree, is reported with its message, and so is a text that is not one
/// s-expression (`sexp_failure`).
/// Each text must then be one s-expression, and the two trees must form a task as `v_pddl`
/// describes: the result is exactly the task `pddl_task` gives. Every name in the result is
/// a normalized identifier: a lowercase ASCII letter followed by lowercase letters, digits,
/// `_`, or `-`.
pub fn parse_pddl(domain: &str, problem: &str) -> (r: Result<Task, Error>)
    requires
        domain@.len() < usize::MAX,
        problem@.len() < usize::MAX,
    ensures
        r is Ok <==> pddl_task(domain@, problem@) is Some,
        r matches Ok(task) ==> pddl_task(domain@, problem@) == Some(task_v(task)),
        r is Ok ==> all_ascii(domain@) && all_ascii(problem@),
        sexp_lex_from(domain@, 0, 1, 1) matches Err(m) ==> (r matches Err(e) && e.spec_message() == m),
        (sexp_lex_from(domain@, 0, 1, 1) matches Ok(dl) && sexp_tree(dl) is Some) ==> (sexp_lex_from(problem@, 0, 1, 1) matches Err(m)
            ==> (r matches Err(e) && e.spec_message() == m)),
        sexp_lex_from(domain@, 0, 1, 1) matches Ok(dl) ==> (sexp_tree(dl) is None ==> (r matches Err(e)
            && e.spec_message() == crate::pddl_rules::sexp_failure(dl))),
        (sexp_lex_from(domain@, 0, 1, 1) matches Ok(dl) && sexp_tree(dl) is Some) ==> (sexp_lex_from(problem@, 0, 1, 1) matches Ok(pl)
            ==> (sexp_tree(pl) is None ==> (r matches Err(e) && e.spec_message() == crate::pddl_rules::sexp_failure(pl)))),
        r matches Ok(task) ==> crate::syntax::task_words(task),
        r matches Err(e) ==> e.spec_kind() == ErrorKind::InvalidInput,
        r matches Err(e) ==> located_or_end(e.spec_message()),
{
    let droot = parse_one(domain)?;
    let proot = parse_one(problem)?;
    let ghost dn = node_v(droot);
    let ghost pn = node_v(proot);
    proof {
        assert(pddl_task(domain@, problem@) == v_pddl(dn, pn));
    }
    let dform = list(&droot, "domain definition")?;
    let pform = list(&proot, "problem definition")?;
    let ghost dv = nodes_v(dform@);
    let ghost pv = nodes_v(pform@);
    let mut i: usize = 2;
    while i < pform.len()
        invariant
            2 <= i,
            sexp_lex_from(domain@, 0, 1, 1) is Ok,
            sexp_lex_from(problem@, 0, 1, 1) is Ok,
            sexp_lex_from(domain@, 0, 1, 1) matches Ok(dl) && sexp_tree(dl) is Some,
            sexp_lex_from(problem@, 0, 1, 1) matches Ok(pl) && sexp_tree(pl) is Some,
            pddl_task(domain@, problem@) == v_pddl(dn, pn),
            dn == NodeV::List(dv),
            pn == NodeV::List(pv),
            pv == nodes_v(pform@),
            pv.len() == pform@.len(),
            forall|k: int| 0 <= k < pform@.len() ==> #[trigger] pv[k] == node_v(pform@[k]),
            forall|k: int| 0 <= k < pform@.len() ==> node_ok(#[trigger] pform@[k]),
            forall|k: int| 2 <= k < i ==> !v_head_is(#[trigger] pv[k], ":action"@),
        decreases pform.len() - i,
    {
        if head_is(&pform[i], ":action") {
            proof {
                assert(v_head_is(pv[i as int], ":action"@));
                assert(!(forall|k: int| 2 <= k < pv.len() ==> !v_head_is(#[trigger] pv[k], ":action"@)));
                assert(v_pddl(dn, pn) is None);
            }
            return Err(at(&proot, "problem definitions cannot contain :action"));
        }
        i = i + 1;
    }
    expect_head(dform, "define", &droot)?;
    expect_head(pform, "define", &proot)?;
    let (domain_name, dsections) = parse_header(dform, &droot, true)?;
    let (problem_name, psections) = parse_header(pform, &proot, false)?;
    let ghost dsv = sections_view(dsections@);
    let ghost psv = sections_view(psections@);
    let domain_at = match find_section(&psections, ":domain") {
        Some(p) => p,
        None => return Err(at(&proot, "problem is missing :domain")),
    };
    let p_domain_node = &pform[domain_at];
    let p_domain = list(p_domain_node, "problem :domain section")?;
    if p_domain.len() != 2 {
        return Err(at(p_domain_node, "expected '(:domain name)'"));
    }
    let head_word = atom_text(&p_domain[0])?;
    if !equals_literal(head_word, ":domain") {
        return Err(at(p_domain_node, "expected '(:domain name)'"));
    }
    let referenced = name(&p_domain[1], false)?;
    if referenced != domain_name {
        return Err(at(p_domain_node, "problem refers to a different domain"));
    }
    let types = match find_section(&dsections, ":types") {
        Some(p) => parse_types(&dform[p])?,
        None => {
            let v: Vec<String> = Vec::new();
            proof {
                assert(scope_v(v@) =~= Seq::<Seq<char>>::empty());
            }
            v
        },
    };
    let mut objects = typed_section(dform, &dsections, ":constants")?;
    let mut more = typed_section(pform, &psections, ":objects")?;
    let ghost o0 = objects@;
    let ghost m0 = more@;
    objects.append(&mut more);
    proof {
        assert forall|k: int| 0 <= k < objects@.len() implies is_word((#[trigger] objects@[k]).name@) && is_word(objects@[k].ty@) by {
            if k < o0.len() {
                assert(objects@[k] == o0[k]);
            } else {
                assert(objects@[k] == m0[k - o0.len()]);
            }
        }
        assert(bindings_v(objects@) =~= bindings_v(o0) + bindings_v(m0));
    }
    let predicates = match find_section(&dsections, ":predicates") {
        Some(p) => parse_predicates(&dform[p])?,
        None => return Err(at(&droot, "domain is missing :predicates")),
    };
    let mut actions: Vec<Action> = Vec::new();
    proof {
        let first = v_actions_from(dv, 2);
        assert(actions@.map_values(|a: Action| action_v(a)) =~= Seq::<ActionV>::empty());
        assert(first == seq_after(Seq::<ActionV>::empty(), first)) by {
            match first {
                Some(rest) => {
                    assert(Seq::<ActionV>::empty() + rest =~= rest);
                },
                None => {},
            }
        }
    }
    let mut k: usize = 2;
    while k < dform.len()
        invariant
            2 <= k,
            sexp_lex_from(domain@, 0, 1, 1) is Ok,
            sexp_lex_from(problem@, 0, 1, 1) is Ok,
            sexp_lex_from(domain@, 0, 1, 1) matches Ok(dl) && sexp_tree(dl) is Some,
            sexp_lex_from(problem@, 0, 1, 1) matches Ok(pl) && sexp_tree(pl) is Some,
            pddl_task(domain@, problem@) == v_pddl(dn, pn),
            dn == NodeV::List(dv),
            pn == NodeV::List(pv),
            dv == nodes_v(dform@),
            dv.len() == dform@.len(),
            forall|q: int| 0 <= q < dform@.len() ==> #[trigger] dv[q] == node_v(dform@[q]),
            forall|q: int| 0 <= q < dform@.len() ==> node_ok(#[trigger] dform@[q]),
            forall|q: int| 0 <= q < actions@.len() ==> crate::dsl::action_words(#[trigger] actions@[q]),
            v_actions_from(dv, 2) == seq_after(actions@.map_values(|a: Action| action_v(a)), v_actions_from(dv, k as int)),
        decreases dform.len() - k,
    {
        if head_is(&dform[k], ":action") {
            let action = match parse_action(&dform[k]) {
                Ok(a) => a,
                Err(e) => {
                    proof {
                        assert(v_actions_from(dv, k as int) is None);
                    }
                    return Err(e);
                },
            };
            let ghost before = actions@;
            let ghost av = action_v(action);
            actions.push(action);
            proof {
                assert forall|q: int| 0 <= q < actions@.len() implies crate::dsl::action_words(#[trigger] actions@[q]) by {
                    if q < before.len() {
                        assert(actions@[q] == before[q]);
                    }
                }
                assert(actions@.map_values(|a: Action| action_v(a)) =~= before.map_values(|a: Action| action_v(a)).push(av));
                match v_actions_from(dv, k + 1) {
                    Some(rest) => {
                        assert(before.map_values(|a: Action| action_v(a)) + (seq![av] + rest)
                            =~= actions@.map_values(|a: Action| action_v(a)) + rest);
                    },
                    None => {},
                }
            }
        }
        k = k + 1;
    }
    proof {
        assert(actions@.map_values(|a: Action| action_v(a)) + Seq::<ActionV>::empty() =~= actions@.map_values(|a: Action| action_v(a)));
    }
    let initial = match find_section(&psections, ":init") {
        Some(p) => parse_initial(&pform[p])?,
        None => return Err(at(&proot, "problem is missing :init")),
    };
    let goal = match find_section(&psections, ":goal") {
        Some(p) => parse_section_formula(&pform[p], ":goal")?,
        None => return Err(at(&proot, "problem is missing :goal")),
    };
    let task = Task { name: problem_name, types, objects, predicates, actions, initial, goal };
    proof {
        assert forall|q: int| 0 <= q < task.actions@.len() implies {
            &&& is_word((#[trigger] task.actions@[q]).name@)
            &&& crate::syntax::bindings_words(task.actions@[q].parameters@)
            &&& crate::syntax::formula_words(task.actions@[q].precondition)
            &&& forall|j: int| 0 <= j < task.actions@[q].add@.len() ==> crate::syntax::atom_words(#[trigger] task.actions@[q].add@[j])
            &&& forall|j: int| 0 <= j < task.actions@[q].delete@.len() ==> crate::syntax::atom_words(#[trigger] task.actions@[q].delete@[j])
        } by {
            assert(crate::dsl::action_words(task.actions@[q]));
        }
    }
    Ok(task)
}


// ----------------------------------------------------------------------------------------------
// Laws
// ----------------------------------------------------------------------------------------------

proof fn lemma_sexp_word_end_lower(cs: Seq<char>, i: int)
    requires
        0 <= i,
    ensures
        sexp_word_end(crate::dsl::lowercase(cs), i) == sexp_word_end(cs, i),
    decreases cs.len() - i,
{
    let ls = crate::dsl::lowercase(cs);
    if i < cs.len() {
        crate::dsl::lemma_lower_char(cs[i]);
        assert(ends_word(ls, i) == ends_word(cs, i));
        if !ends_word(cs, i) {
            lemma_sexp_word_end_lower(cs, i + 1);
        }
    }
}

proof fn lemma_sexp_lex_lower(cs: Seq<char>, i: int, line: nat, column: nat)
    requires
        0 <= i,
    ensures
        sexp_lex_from(crate::dsl::lowercase(cs), i, line, column) == sexp_lex_from(cs, i, line, column),
    decreases cs.len() - i, 0int,
{
    let ls = crate::dsl::lowercase(cs);
    if i < cs.len() {
        let c = cs[i];
        assert(ls[i] == lower(c));
        crate::dsl::lemma_lower_char(c);
        if c == '\n' {
            lemma_sexp_lex_lower(cs, i + 1, line + 1, 1);
        } else if c == ';' {
            lemma_sexp_comment_lower(cs, i + 1, line, column + 1);
        } else if space(c) {
            lemma_sexp_lex_lower(cs, i + 1, line, column + 1);
        } else if c == '(' || c == ')' {
            lemma_sexp_lex_lower(cs, i + 1, line, column + 1);
        } else {
            let e = sexp_word_end(cs, i + 1);
            lemma_sexp_word_end(cs, i + 1);
            lemma_sexp_word_end_lower(cs, i + 1);
            assert(crate::dsl::lowercase(ls.subrange(i, e)) =~= crate::dsl::lowercase(cs.subrange(i, e))) by {
                assert forall|k: int| 0 <= k < e - i implies #[trigger] crate::dsl::lowercase(ls.subrange(i, e))[k]
                    == crate::dsl::lowercase(cs.subrange(i, e))[k] by {
                    crate::dsl::lemma_lower_char(cs[i + k]);
                }
            }
            assert forall|k: int| 0 <= k < e - i implies ascii(#[trigger] ls.subrange(i, e)[k]) == ascii(cs.subrange(i, e)[k]) by {
                assert(ls.subrange(i, e)[k] == ls[i + k]);
                assert(ls[i + k] == lower(cs[i + k]));
                crate::dsl::lemma_lower_char(cs[i + k]);
            }
            if all_ascii(cs.subrange(i, e)) {
                assert forall|k: int| 0 <= k < ls.subrange(i, e).len() implies ascii(#[trigger] ls.subrange(i, e)[k]) by {
                    assert(ascii(cs.subrange(i, e)[k]));
                }
            } else {
                let k = choose|k: int| 0 <= k < cs.subrange(i, e).len() && !ascii(#[trigger] cs.subrange(i, e)[k]);
                assert(!ascii(ls.subrange(i, e)[k]));
            }
            lemma_sexp_lex_lower(cs, e, line, (column + (e - i)) as nat);
        }
    }
}

proof fn lemma_sexp_comment_lower(cs: Seq<char>, i: int, line: nat, column: nat)
    requires
        0 <= i,
    ensures
        sexp_comment_from(crate::dsl::lowercase(cs), i, line, column) == sexp_comment_from(cs, i, line, column),
    decreases cs.len() - i, 1int,
{
    let ls = crate::dsl::lowercase(cs);
    if i >= cs.len() {
        lemma_sexp_lex_lower(cs, i, line, column);
    } else {
        let c = cs[i];
        assert(ls[i] == lower(c));
        crate::dsl::lemma_lower_char(c);
        if !ascii(c) {
        } else if c == '\n' {
            lemma_sexp_lex_lower(cs, i + 1, line + 1, 1);
        } else {
            lemma_sexp_comment_lower(cs, i + 1, line, column + 1);
        }
    }
}

/// PDDL is case-insensitive: lowercasing the ASCII letters of a source leaves its tokens,
/// and any lexical error, unchanged.
pub proof fn law_sexp_lex_case_insensitive(cs: Seq<char>)
    ensures
        sexp_lex_from(crate::dsl::lowercase(cs), 0, 1, 1) == sexp_lex_from(cs, 0, 1, 1),
{
    lemma_sexp_lex_lower(cs, 0, 1, 1);
}

} // verus!
