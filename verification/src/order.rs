//! A strict total order on names and name lists, used to keep states canonical.
use vstd::prelude::*;

verus! {

/// Three-way lexicographic comparison of character sequences by code point.
pub open spec fn lex_chars(a: Seq<char>, b: Seq<char>) -> int
    decreases a.len(),
{
    if a.len() == 0 {
        if b.len() == 0 { 0 } else { -1 }
    } else if b.len() == 0 {
        1
    } else if a[0] == b[0] {
        lex_chars(a.drop_first(), b.drop_first())
    } else if (a[0] as int) < (b[0] as int) {
        -1
    } else {
        1
    }
}

/// Three-way lexicographic comparison of name lists.
pub open spec fn lex_names(a: Seq<Seq<char>>, b: Seq<Seq<char>>) -> int
    decreases a.len(),
{
    if a.len() == 0 {
        if b.len() == 0 { 0 } else { -1 }
    } else if b.len() == 0 {
        1
    } else if lex_chars(a[0], b[0]) == 0 {
        lex_names(a.drop_first(), b.drop_first())
    } else {
        lex_chars(a[0], b[0])
    }
}

pub proof fn lemma_lex_chars(a: Seq<char>, b: Seq<char>)
    ensures
        lex_chars(a, b) == -1 || lex_chars(a, b) == 0 || lex_chars(a, b) == 1,
        (lex_chars(a, b) == 0) == (a == b),
        lex_chars(a, b) == -lex_chars(b, a),
    decreases a.len(),
{
    if a.len() > 0 && b.len() > 0 && a[0] == b[0] {
        lemma_lex_chars(a.drop_first(), b.drop_first());
        if a.drop_first() == b.drop_first() {
            assert(a =~= seq![a[0]] + a.drop_first());
            assert(b =~= seq![b[0]] + b.drop_first());
        }
    }
    if a.len() == 0 && b.len() == 0 {
        assert(a =~= b);
    }
    if a.len() > 0 && b.len() > 0 && a[0] != b[0] {
        assert((a[0] as int) != (b[0] as int));
    }
}

pub proof fn lemma_lex_chars_trans(a: Seq<char>, b: Seq<char>, c: Seq<char>)
    requires
        lex_chars(a, b) < 0,
        lex_chars(b, c) < 0,
    ensures
        lex_chars(a, c) < 0,
    decreases a.len(),
{
    if a.len() > 0 && b.len() > 0 && c.len() > 0 && a[0] == b[0] && b[0] == c[0] {
        lemma_lex_chars_trans(a.drop_first(), b.drop_first(), c.drop_first());
    }
}

pub proof fn lemma_lex_names(a: Seq<Seq<char>>, b: Seq<Seq<char>>)
    ensures
        lex_names(a, b) == -1 || lex_names(a, b) == 0 || lex_names(a, b) == 1,
        (lex_names(a, b) == 0) == (a == b),
        lex_names(a, b) == -lex_names(b, a),
    decreases a.len(),
{
    if a.len() > 0 && b.len() > 0 {
        lemma_lex_chars(a[0], b[0]);
        if lex_chars(a[0], b[0]) == 0 {
            lemma_lex_names(a.drop_first(), b.drop_first());
            if a.drop_first() == b.drop_first() {
                assert(a =~= seq![a[0]] + a.drop_first());
                assert(b =~= seq![b[0]] + b.drop_first());
            }
        }
    }
    if a.len() == 0 && b.len() == 0 {
        assert(a =~= b);
    }
}

pub proof fn lemma_lex_names_trans(a: Seq<Seq<char>>, b: Seq<Seq<char>>, c: Seq<Seq<char>>)
    requires
        lex_names(a, b) < 0,
        lex_names(b, c) < 0,
    ensures
        lex_names(a, c) < 0,
    decreases a.len(),
{
    if a.len() > 0 && b.len() > 0 && c.len() > 0 {
        lemma_lex_chars(a[0], b[0]);
        lemma_lex_chars(b[0], c[0]);
        lemma_lex_chars(a[0], c[0]);
        if lex_chars(a[0], b[0]) == 0 && lex_chars(b[0], c[0]) == 0 {
            lemma_lex_names_trans(a.drop_first(), b.drop_first(), c.drop_first());
        } else if lex_chars(a[0], b[0]) < 0 && lex_chars(b[0], c[0]) < 0 {
            lemma_lex_chars_trans(a[0], b[0], c[0]);
        }
    }
}

/// Three-way comparison of two strings.
pub fn compare_strings(a: &String, b: &String) -> (r: i8)
    ensures
        r as int == lex_chars(a@, b@),
{
    let sa = a.as_str();
    let sb = b.as_str();
    let la = sa.unicode_len();
    let lb = sb.unicode_len();
    let mut i: usize = 0;
    assert(a@.skip(0) =~= a@);
    assert(b@.skip(0) =~= b@);
    while i < la && i < lb
        invariant
            la == a@.len(),
            lb == b@.len(),
            i <= la,
            i <= lb,
            sa@ == a@,
            sb@ == b@,
            lex_chars(a@, b@) == lex_chars(a@.skip(i as int), b@.skip(i as int)),
        decreases la - i,
    {
        let ca = sa.get_char(i);
        let cb = sb.get_char(i);
        let ghost x = a@.skip(i as int);
        let ghost y = b@.skip(i as int);
        assert(x[0] == ca && y[0] == cb);
        if ca != cb {
            if (ca as u32) < (cb as u32) {
                return -1;
            } else {
                return 1;
            }
        }
        assert(x.drop_first() =~= a@.skip(i + 1));
        assert(y.drop_first() =~= b@.skip(i + 1));
        i = i + 1;
    }
    if i == la {
        if i == lb {
            0
        } else {
            -1
        }
    } else {
        1
    }
}

/// Three-way comparison of two name lists.
pub fn compare_string_lists(a: &Vec<String>, b: &Vec<String>) -> (r: i8)
    ensures
        r as int == lex_names(a.deep_view(), b.deep_view()),
{
    let mut i: usize = 0;
    let ghost av = a.deep_view();
    let ghost bv = b.deep_view();
    assert(av.skip(0) =~= av);
    assert(bv.skip(0) =~= bv);
    while i < a.len() && i < b.len()
        invariant
            i <= a.len(),
            i <= b.len(),
            av == a.deep_view(),
            bv == b.deep_view(),
            lex_names(av, bv) == lex_names(av.skip(i as int), bv.skip(i as int)),
        decreases a.len() - i,
    {
        let c = compare_strings(&a[i], &b[i]);
        let ghost x = av.skip(i as int);
        let ghost y = bv.skip(i as int);
        assert(x[0] == a@[i as int]@ && y[0] == b@[i as int]@);
        if c != 0 {
            return c;
        }
        assert(x.drop_first() =~= av.skip(i + 1));
        assert(y.drop_first() =~= bv.skip(i + 1));
        i = i + 1;
    }
    if i == a.len() {
        if i == b.len() {
            0
        } else {
            -1
        }
    } else {
        1
    }
}

} // verus!
