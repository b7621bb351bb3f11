//! Reading back the position and text of a located message, `line:column: text`.
use vstd::prelude::*;

use crate::syntax::space;
use crate::text::{decimal, digit_char, str_chars, string_from_chars};

verus! {

/// Whether a character is a decimal digit.
pub open spec fn is_digit(c: char) -> bool {
    48 <= (c as u32) <= 57
}

/// The value of a run of decimal digits, most significant first.
pub open spec fn digits_value(s: Seq<char>) -> nat
    decreases s.len(),
{
    if s.len() == 0 {
        0
    } else {
        digits_value(s.drop_last()) * 10 + ((s.last() as u32) - 48) as nat
    }
}

/// A nonempty run of decimal digits whose value fits in `usize`.
pub open spec fn numeral(s: Seq<char>) -> bool {
    &&& s.len() > 0
    &&& forall|i: int| 0 <= i < s.len() ==> is_digit(#[trigger] s[i])
    &&& digits_value(s) <= usize::MAX
}

/// The index of the first `:` at or after `i`, or the length if there is none.
pub open spec fn colon_from(s: Seq<char>, i: int) -> int
    decreases s.len() - i,
{
    if i >= s.len() {
        s.len() as int
    } else if s[i] == ':' {
        i
    } else {
        colon_from(s, i + 1)
    }
}

/// The text without leading white space.
pub open spec fn trim_start(s: Seq<char>) -> Seq<char>
    decreases s.len(),
{
    if s.len() > 0 && space(s[0]) {
        trim_start(s.drop_first())
    } else {
        s
    }
}

/// The text without trailing white space.
pub open spec fn trim_end(s: Seq<char>) -> Seq<char>
    decreases s.len(),
{
    if s.len() > 0 && space(s.last()) {
        trim_end(s.drop_last())
    } else {
        s
    }
}

/// The text without surrounding white space.
pub open spec fn trim(s: Seq<char>) -> Seq<char> {
    trim_end(trim_start(s))
}

/// The line, column, and text of a message `line:column: text`: the line runs to the first
/// `:`, the column to the next `:` (or the end), both decimal; the text is the rest, trimmed.
pub open spec fn location_of(m: Seq<char>) -> Option<(nat, nat, Seq<char>)> {
    let i = colon_from(m, 0);
    let j = colon_from(m, i + 1);
    if i < m.len() && numeral(m.subrange(0, i)) && numeral(m.subrange(i + 1, j)) {
        Some((
            digits_value(m.subrange(0, i)),
            digits_value(m.subrange(i + 1, j)),
            if j < m.len() { trim(m.subrange(j + 1, m.len() as int)) } else { Seq::empty() },
        ))
    } else {
        None
    }
}

proof fn lemma_colon_from(s: Seq<char>, i: int)
    requires
        0 <= i,
    ensures
        i <= colon_from(s, i) || s.len() < i,
        colon_from(s, i) <= s.len() || s.len() < i,
        colon_from(s, i) < s.len() ==> s[colon_from(s, i)] == ':',
        forall|k: int| i <= k < colon_from(s, i) && k < s.len() ==> s[k] != ':',
    decreases s.len() - i,
{
    if i < s.len() && s[i] != ':' {
        lemma_colon_from(s, i + 1);
    }
}

/// A longer run of digits is worth at least its prefix.
proof fn lemma_digits_prefix(s: Seq<char>, k: int)
    requires
        0 <= k <= s.len(),
    ensures
        digits_value(s.subrange(0, k)) <= digits_value(s),
    decreases s.len(),
{
    if k < s.len() {
        assert(s.drop_last().subrange(0, k) =~= s.subrange(0, k));
        lemma_digits_prefix(s.drop_last(), k);
    } else {
        assert(s.subrange(0, k) =~= s);
    }
}

/// The value of the decimal digits `s[from..to]`, if they form a numeral.
fn parse_numeral(cs: &Vec<char>, from: usize, to: usize) -> (r: Option<usize>)
    requires
        from <= to <= cs@.len(),
    ensures
        r is Some <==> numeral(cs@.subrange(from as int, to as int)),
        r matches Some(v) ==> v == digits_value(cs@.subrange(from as int, to as int)),
{
    let ghost s = cs@.subrange(from as int, to as int);
    if from == to {
        return None;
    }
    let mut v: usize = 0;
    let mut k: usize = from;
    while k < to
        invariant
            from <= k <= to <= cs@.len(),
            s == cs@.subrange(from as int, to as int),
            v == digits_value(s.subrange(0, k - from)),
            forall|q: int| 0 <= q < k - from ==> is_digit(#[trigger] s[q]),
        decreases to - k,
    {
        let c = cs[k];
        let b = c as u32;
        if !(48 <= b && b <= 57) {
            proof {
                assert(!is_digit(s[k - from]));
            }
            return None;
        }
        let d = (b - 48) as usize;
        proof {
            assert(s.subrange(0, k - from + 1).drop_last() =~= s.subrange(0, k - from));
            assert(s.subrange(0, k - from + 1).last() == c);
        }
        let next = match v.checked_mul(10) {
            Some(t) => t.checked_add(d),
            None => None,
        };
        match next {
            Some(n) => {
                v = n;
            },
            None => {
                proof {
                    lemma_digits_prefix(s, k - from + 1);
                }
                return None;
            },
        }
        k = k + 1;
    }
    proof {
        assert(s.subrange(0, k - from) =~= s);
    }
    Some(v)
}

proof fn lemma_trim_start_at(s: Seq<char>, a: int)
    requires
        0 <= a <= s.len(),
        forall|q: int| 0 <= q < a ==> space(#[trigger] s[q]),
        a == s.len() || !space(s[a]),
    ensures
        trim_start(s) == s.subrange(a, s.len() as int),
    decreases a,
{
    if a > 0 {
        assert forall|q: int| 0 <= q < a - 1 implies space(#[trigger] s.drop_first()[q]) by {
            assert(s.drop_first()[q] == s[q + 1]);
        }
        lemma_trim_start_at(s.drop_first(), a - 1);
        assert(s.drop_first().subrange(a - 1, s.drop_first().len() as int) =~= s.subrange(a, s.len() as int));
    } else {
        assert(s.subrange(0, s.len() as int) =~= s);
    }
}

proof fn lemma_trim_end_at(s: Seq<char>, b: int)
    requires
        0 <= b <= s.len(),
        forall|q: int| b <= q < s.len() ==> space(#[trigger] s[q]),
        b == 0 || !space(s[b - 1]),
    ensures
        trim_end(s) == s.subrange(0, b),
    decreases s.len() - b,
{
    if b < s.len() {
        assert forall|q: int| b <= q < s.drop_last().len() implies space(#[trigger] s.drop_last()[q]) by {
            assert(s.drop_last()[q] == s[q]);
        }
        lemma_trim_end_at(s.drop_last(), b);
        assert(s.drop_last().subrange(0, b) =~= s.subrange(0, b));
    } else {
        assert(s.subrange(0, b) =~= s);
    }
}

/// The line, column, and text of a message of the form `line:column: text`, if it has that
/// form.
pub fn location(message: &str) -> (r: Option<(usize, usize, String)>)
    ensures
        match location_of(message@) {
            Some((l, c, t)) => r matches Some(x) && x.0 == l && x.1 == c && x.2@ == t,
            None => r is None,
        },
{
    let cs = str_chars(message);
    let ghost m = cs@;
    let mut i: usize = 0;
    while i < cs.len() && cs[i] != ':'
        invariant
            i <= cs@.len(),
            m == cs@,
            colon_from(m, 0) == colon_from(m, i as int),
        decreases cs.len() - i,
    {
        i = i + 1;
    }
    if i == cs.len() {
        return None;
    }
    let mut j: usize = i + 1;
    while j < cs.len() && cs[j] != ':'
        invariant
            i + 1 <= j <= cs@.len(),
            m == cs@,
            colon_from(m, i + 1) == colon_from(m, j as int),
        decreases cs.len() - j,
    {
        j = j + 1;
    }
    let line = match parse_numeral(&cs, 0, i) {
        Some(v) => v,
        None => return None,
    };
    let column = match parse_numeral(&cs, i + 1, j) {
        Some(v) => v,
        None => return None,
    };
    if j == cs.len() {
        return Some((line, column, string_from_chars(&Vec::new())));
    }
    let mut a: usize = j + 1;
    while a < cs.len() && crate::syntax::is_space(cs[a])
        invariant
            j + 1 <= a <= cs@.len(),
            forall|q: int| j + 1 <= q < a ==> space(#[trigger] cs@[q]),
        decreases cs.len() - a,
    {
        a = a + 1;
    }
    let mut b: usize = cs.len();
    while b > a && crate::syntax::is_space(cs[b - 1])
        invariant
            a <= b <= cs@.len(),
            forall|q: int| b <= q < cs@.len() ==> space(#[trigger] cs@[q]),
        decreases b - a,
    {
        b = b - 1;
    }
    let mut text: Vec<char> = Vec::new();
    let mut k: usize = a;
    while k < b
        invariant
            a <= k <= b <= cs@.len(),
            text@ == cs@.subrange(a as int, k as int),
        decreases b - k,
    {
        text.push(cs[k]);
        k = k + 1;
    }
    proof {
        let rest = m.subrange(j + 1, m.len() as int);
        let a0 = a - (j + 1);
        assert forall|q: int| 0 <= q < a0 implies space(#[trigger] rest[q]) by {
            assert(rest[q] == m[j + 1 + q]);
        }
        if a < m.len() {
            assert(rest[a0] == m[a as int]);
        }
        lemma_trim_start_at(rest, a0);
        let ts = rest.subrange(a0, rest.len() as int);
        assert(ts =~= m.subrange(a as int, m.len() as int));
        let b0 = b - a;
        assert forall|q: int| b0 <= q < ts.len() implies space(#[trigger] ts[q]) by {
            assert(ts[q] == m[a + q]);
        }
        if b0 > 0 {
            assert(ts[b0 - 1] == m[b - 1]);
        }
        lemma_trim_end_at(ts, b0);
        assert(ts.subrange(0, b0) =~= m.subrange(a as int, b as int));
    }
    Some((line, column, string_from_chars(&text)))
}

/// The value of the decimal rendering of a number is the number.
proof fn lemma_decimal_value(n: nat)
    ensures
        digits_value(decimal(n)) == n,
        decimal(n).len() > 0,
        forall|i: int| 0 <= i < decimal(n).len() ==> is_digit(#[trigger] decimal(n)[i]),
    decreases n,
{
    if n >= 10 {
        lemma_decimal_value(n / 10);
        let d = decimal(n);
        assert(d.drop_last() =~= decimal(n / 10));
        assert(digit_char(n % 10) as u32 == 48 + n % 10);
        assert forall|i: int| 0 <= i < d.len() implies is_digit(#[trigger] d[i]) by {
            if i < d.len() - 1 {
                assert(d[i] == decimal(n / 10)[i]);
            }
        }
        assert(d.last() == digit_char(n % 10));
        assert(((d.last() as u32) - 48) as nat == n % 10);
        assert(digits_value(d) == digits_value(decimal(n / 10)) * 10 + n % 10);
        assert(n == (n / 10) * 10 + n % 10) by (nonlinear_arith);
    } else {
        assert(digit_char(n) as u32 == 48 + n);
        assert(decimal(n).drop_last() =~= Seq::<char>::empty());
        assert(decimal(n).last() == digit_char(n));
        assert(digits_value(decimal(n)) == digits_value(decimal(n).drop_last()) * 10 + ((decimal(n).last() as u32) - 48) as nat);
    }
}

/// Reading back a located message gives its line, its column, and its text, when the text
/// has no surrounding white space.
pub proof fn law_location_round_trip(line: nat, column: nat, text: Seq<char>)
    requires
        line <= usize::MAX,
        column <= usize::MAX,
        trim(text) == text,
    ensures
        location_of(decimal(line) + ":"@ + decimal(column) + ": "@ + text) == Some((line, column, text)),
{
    reveal_strlit(":");
    reveal_strlit(": ");
    let dl = decimal(line);
    let dc = decimal(column);
    let m = dl + ":"@ + dc + ": "@ + text;
    lemma_decimal_value(line);
    lemma_decimal_value(column);
    let i = dl.len() as int;
    let j = i + 1 + dc.len();
    assert(m[i] == ':');
    assert forall|k: int| 0 <= k < i implies m[k] != ':' by {
        assert(m[k] == dl[k]);
        assert(is_digit(dl[k]));
    }
    lemma_colon_from(m, 0);
    assert(colon_from(m, 0) == i) by {
        if colon_from(m, 0) < i {
            assert(m[colon_from(m, 0)] == ':');
        }
    }
    assert(m[j] == ':');
    assert forall|k: int| i + 1 <= k < j implies m[k] != ':' by {
        assert(m[k] == dc[k - i - 1]);
        assert(is_digit(dc[k - i - 1]));
    }
    lemma_colon_from(m, i + 1);
    assert(colon_from(m, i + 1) == j) by {
        if colon_from(m, i + 1) < j {
            assert(m[colon_from(m, i + 1)] == ':');
        }
    }
    assert(m.subrange(0, i) =~= dl);
    assert(m.subrange(i + 1, j) =~= dc);
    let rest = m.subrange(j + 1, m.len() as int);
    assert(rest =~= seq![' '] + text);
    assert(space(rest[0]));
    assert(rest.drop_first() =~= text);
    assert(trim_start(rest) == trim_start(text));
}

} // verus!
