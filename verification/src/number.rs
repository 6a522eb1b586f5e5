//! The syntax of decimal floating-point literals, as `f64::from_str`
//! documents it, so that a token can be tested without parsing a float:
//!
//! ```text
//! Float  ::= Sign? ( 'inf' | 'infinity' | 'nan' | Number )
//! Number ::= ( Digit+ | Digit+ '.' Digit* | Digit* '.' Digit+ ) Exp?
//! Exp    ::= 'e' Sign? Digit+
//! Sign   ::= [+-]
//! Digit  ::= [0-9]
//! ```
//! Letters are matched without regard to ASCII case.
use vstd::prelude::*;
use crate::text::{Text, ci_char_eq, ci_char_eq_exec, ci_eq, ci_eq_at, lead_while, lemma_lead_while_is};

verus! {

pub open spec fn is_digit(c: char) -> bool {
    0x30 <= (c as u32) <= 0x39
}

pub open spec fn digit_pred() -> spec_fn(char) -> bool {
    |c: char| is_digit(c)
}

pub open spec fn is_sign(c: char) -> bool {
    c == '+' || c == '-'
}

/// `s` without one leading sign, if it has one.
pub open spec fn unsigned_part(s: Text) -> Text {
    if s.len() > 0 && is_sign(s[0]) {
        s.drop_first()
    } else {
        s
    }
}

/// `'e' Sign? Digit+`
pub open spec fn is_exponent(s: Text) -> bool {
    &&& s.len() >= 2
    &&& ci_char_eq(s[0], 'e')
    &&& {
        let u = unsigned_part(s.drop_first());
        u.len() >= 1 && lead_while(u, digit_pred()) == u.len()
    }
}

/// `( Digit+ | Digit+ '.' Digit* | Digit* '.' Digit+ ) Exp?`
pub open spec fn is_decimal(s: Text) -> bool {
    let d1 = lead_while(s, digit_pred());
    let a = s.skip(d1 as int);
    if a.len() > 0 && a[0] == '.' {
        let b = a.drop_first();
        let d2 = lead_while(b, digit_pred());
        let rest = b.skip(d2 as int);
        d1 + d2 >= 1 && (rest.len() == 0 || is_exponent(rest))
    } else {
        d1 >= 1 && (a.len() == 0 || is_exponent(a))
    }
}

/// `s` is text that `f64::from_str` accepts.
pub open spec fn is_float_literal(s: Text) -> bool {
    let body = unsigned_part(s);
    ||| ci_eq(body, "inf"@)
    ||| ci_eq(body, "infinity"@)
    ||| ci_eq(body, "nan"@)
    ||| is_decimal(body)
}

fn is_digit_char(c: char) -> (b: bool)
    ensures
        b == is_digit(c),
{
    0x30 <= (c as u32) && (c as u32) <= 0x39
}

/// First index at or after `from` that is not a digit.
fn skip_digits(s: &Vec<char>, from: usize) -> (r: usize)
    requires
        from <= s.len(),
    ensures
        r == from + lead_while(s@.skip(from as int), digit_pred()),
        r <= s.len(),
{
    let mut i = from;
    while i < s.len() && is_digit_char(s[i])
        invariant
            from <= i <= s.len(),
            forall|j: int| from <= j < i ==> is_digit(#[trigger] s@[j]),
        decreases s.len() - i,
    {
        i += 1;
    }
    proof {
        let t = s@.skip(from as int);
        assert forall|j: int| 0 <= j < i - from implies #[trigger] digit_pred()(t[j]) by {
            assert(t[j] == s@[from + j]);
        }
        if i < s.len() {
            assert(t[i - from] == s@[i as int]);
        }
        lemma_lead_while_is(t, digit_pred(), i - from);
    }
    i
}

/// `s[from..]` is an exponent.
fn exponent_at(s: &Vec<char>, from: usize) -> (b: bool)
    requires
        from <= s.len(),
    ensures
        b == is_exponent(s@.skip(from as int)),
{
    let ghost t = s@.skip(from as int);
    if s.len() - from < 2 {
        return false;
    }
    assert(t[0] == s@[from as int]);
    if !ci_char_eq_exec(s[from], 'e') {
        return false;
    }
    let mut k = from + 1;
    let ghost t1 = t.drop_first();
    assert(t1 =~= s@.skip(from + 1));
    if is_sign_char(s[k]) {
        assert(t1[0] == s@[k as int]);
        k += 1;
        assert(unsigned_part(t1) =~= s@.skip(k as int));
    } else {
        assert(t1[0] == s@[k as int]);
        assert(unsigned_part(t1) =~= s@.skip(k as int));
    }
    if k >= s.len() {
        return false;
    }
    let e = skip_digits(s, k);
    e == s.len()
}

fn is_sign_char(c: char) -> (b: bool)
    ensures
        b == is_sign(c),
{
    c == '+' || c == '-'
}

/// `s[from..]` is a decimal number.
fn decimal_at(s: &Vec<char>, from: usize) -> (b: bool)
    requires
        from <= s.len(),
    ensures
        b == is_decimal(s@.skip(from as int)),
{
    let ghost t = s@.skip(from as int);
    let i = skip_digits(s, from);
    let d1 = i - from;
    let ghost a = t.skip(d1 as int);
    assert(a =~= s@.skip(i as int));
    if i < s.len() && s[i] == '.' {
        assert(a[0] == s@[i as int]);
        let ghost b = a.drop_first();
        assert(b =~= s@.skip(i + 1));
        let j = skip_digits(s, i + 1);
        let d2 = j - (i + 1);
        assert(b.skip(d2 as int) =~= s@.skip(j as int));
        d1 + d2 >= 1 && (j == s.len() || exponent_at(s, j))
    } else {
        if i < s.len() {
            assert(a[0] == s@[i as int]);
        }
        d1 >= 1 && (i == s.len() || exponent_at(s, i))
    }
}

/// `s` is text that `f64::from_str` accepts.
pub fn float_literal(s: &Vec<char>) -> (b: bool)
    ensures
        b == is_float_literal(s@),
{
    let start: usize = if s.len() > 0 && is_sign_char(s[0]) {
        1
    } else {
        0
    };
    assert(unsigned_part(s@) =~= s@.skip(start as int));
    assert(s@.skip(start as int) =~= s@.subrange(start as int, s.len() as int));
    ci_eq_at(s, start, s.len(), "inf") || ci_eq_at(s, start, s.len(), "infinity") || ci_eq_at(
        s,
        start,
        s.len(),
        "nan",
    ) || decimal_at(s, start)
}

/// Every non-empty run of the decimal digits `0`..`9`, with or without a
/// sign in front, and with or without a fraction `.` followed by digits,
/// is text that `f64::from_str` accepts.
pub proof fn lemma_digits_are_float(a: Text, b: Text)
    requires
        a.len() > 0,
        forall|i: int| 0 <= i < a.len() ==> 0x30 <= (#[trigger] a[i] as u32) <= 0x39,
        forall|i: int| 0 <= i < b.len() ==> 0x30 <= (#[trigger] b[i] as u32) <= 0x39,
    ensures
        is_float_literal(a),
        is_float_literal(seq!['-'] + a),
        is_float_literal(seq!['+'] + a),
        is_float_literal(a + seq!['.'] + b),
{
    lemma_digit_run(a);
    assert(unsigned_part(a) == a);
    let na = seq!['-'] + a;
    assert(unsigned_part(na) =~= a);
    let pa = seq!['+'] + a;
    assert(unsigned_part(pa) =~= a);
    let c = a + seq!['.'] + b;
    assert forall|i: int| 0 <= i < a.len() implies #[trigger] digit_pred()(c[i]) by {
        assert(c[i] == a[i]);
    }
    assert(!is_digit(c[a.len() as int]));
    lemma_lead_while_is(c, digit_pred(), a.len() as int);
    assert(!is_sign(c[0])) by {
        assert(c[0] == a[0]);
    }
    assert(unsigned_part(c) == c);
    let rest = c.skip(a.len() as int);
    assert(rest[0] == '.');
    let bb = rest.drop_first();
    assert(bb =~= b);
    lemma_digit_run(b);
}

/// A run of digits is all digits: the digit count is its length.
proof fn lemma_digit_run(a: Text)
    requires
        forall|i: int| 0 <= i < a.len() ==> 0x30 <= (#[trigger] a[i] as u32) <= 0x39,
    ensures
        lead_while(a, digit_pred()) == a.len(),
        a.len() > 0 ==> is_decimal(a),
        a.len() > 0 ==> !is_sign(a[0]),
{
    assert forall|i: int| 0 <= i < a.len() implies #[trigger] digit_pred()(a[i]) by {}
    lemma_lead_while_is(a, digit_pred(), a.len() as int);
    assert(a.skip(a.len() as int).len() == 0);
}

} // verus!
