//! Character-level text handling: whitespace, trimming, tokens and
//! prefix tests, each stated over `Seq<char>` and implemented on `Vec<char>`.
use vstd::prelude::*;

verus! {

/// The characters of a text, as Verus views a `str` or a `String`.
pub type Text = Seq<char>;

/// Trusted: `String::push` appends one character at the end of the string.
pub assume_specification[ String::push ](s: &mut String, ch: char)
    ensures
        final(s)@ == old(s)@.push(ch),
;

/// Unicode `White_Space`, the set that `char::is_whitespace` documents.
pub open spec fn is_ws(c: char) -> bool {
    let u = c as u32;
    ||| 0x9 <= u <= 0xd
    ||| u == 0x20 || u == 0x85 || u == 0xa0 || u == 0x1680
    ||| 0x2000 <= u <= 0x200a
    ||| u == 0x2028 || u == 0x2029 || u == 0x202f || u == 0x205f || u == 0x3000
}

pub open spec fn ws_pred() -> spec_fn(char) -> bool {
    |c: char| is_ws(c)
}

pub open spec fn non_ws_pred() -> spec_fn(char) -> bool {
    |c: char| !is_ws(c)
}

pub open spec fn quote_pred() -> spec_fn(char) -> bool {
    |c: char| c == '"'
}

/// Characters other than `x`.
pub open spec fn other_than(x: char) -> spec_fn(char) -> bool {
    |c: char| c != x
}

/// Number of leading characters of `s` that satisfy `p`.
pub open spec fn lead_while(s: Text, p: spec_fn(char) -> bool) -> nat
    decreases s.len(),
{
    if s.len() > 0 && p(s[0]) {
        1 + lead_while(s.drop_first(), p)
    } else {
        0
    }
}

/// Number of trailing characters of `s` that satisfy `p`.
pub open spec fn trail_while(s: Text, p: spec_fn(char) -> bool) -> nat
    decreases s.len(),
{
    if s.len() > 0 && p(s.last()) {
        1 + trail_while(s.drop_last(), p)
    } else {
        0
    }
}

/// `s` without the leading and trailing characters that satisfy `p`.
pub open spec fn trim_by(s: Text, p: spec_fn(char) -> bool) -> Text {
    let t = s.skip(lead_while(s, p) as int);
    t.take(t.len() - trail_while(t, p))
}

/// `str::trim`: whitespace removed at both ends.
pub open spec fn trim(s: Text) -> Text {
    trim_by(s, ws_pred())
}

/// `str::trim_matches('"')`: double quotes removed at both ends.
pub open spec fn trim_quotes(s: Text) -> Text {
    trim_by(s, quote_pred())
}

pub open spec fn starts_with(s: Text, p: Text) -> bool {
    p.len() <= s.len() && s.take(p.len() as int) == p
}

pub open spec fn ends_with(s: Text, p: Text) -> bool {
    p.len() <= s.len() && s.skip(s.len() - p.len()) == p
}

/// The tokens of `s` between runs of whitespace (`str::split_whitespace`).
pub open spec fn split_ws(s: Text) -> Seq<Text>
    decreases s.len(),
{
    if s.len() == 0 {
        seq![]
    } else if is_ws(s[0]) {
        split_ws(s.drop_first())
    } else {
        let k = lead_while(s, non_ws_pred());
        if k == 0 {
            seq![]
        } else {
            proof {
                lemma_lead_while(s, non_ws_pred());
            }
            seq![s.take(k as int)] + split_ws(s.skip(k as int))
        }
    }
}

/// `c` equals the ASCII letter or symbol `l`, ignoring ASCII case when `l` is a
/// lower-case letter.
pub open spec fn ci_char_eq(c: char, l: char) -> bool {
    ||| c == l
    ||| (0x61 <= (l as u32) <= 0x7a && (c as u32) + 32 == (l as u32))
}

/// `s` equals the lower-case pattern `p`, ignoring ASCII case.
pub open spec fn ci_eq(s: Text, p: Text) -> bool {
    &&& s.len() == p.len()
    &&& forall|i: int| 0 <= i < s.len() ==> ci_char_eq(#[trigger] s[i], p[i])
}

/// `s` ends with the lower-case pattern `p`, ignoring ASCII case.
pub open spec fn ci_ends_with(s: Text, p: Text) -> bool {
    p.len() <= s.len() && ci_eq(s.skip(s.len() - p.len()), p)
}

pub open spec fn is_ascii_alpha(c: char) -> bool {
    let u = c as u32;
    (0x41 <= u <= 0x5a) || (0x61 <= u <= 0x7a)
}

pub open spec fn texts_of(v: Seq<Vec<char>>) -> Seq<Text> {
    v.map_values(|w: Vec<char>| w@)
}

pub open spec fn strings_view(v: Seq<String>) -> Seq<Text> {
    v.map_values(|w: String| w@)
}

pub proof fn lemma_lead_while(s: Text, p: spec_fn(char) -> bool)
    ensures
        lead_while(s, p) <= s.len(),
        forall|i: int| 0 <= i < lead_while(s, p) ==> #[trigger] p(s[i]),
        lead_while(s, p) < s.len() ==> !p(s[lead_while(s, p) as int]),
    decreases s.len(),
{
    if s.len() > 0 && p(s[0]) {
        lemma_lead_while(s.drop_first(), p);
        assert forall|i: int| 0 <= i < lead_while(s, p) implies #[trigger] p(s[i]) by {
            if i > 0 {
                assert(s[i] == s.drop_first()[i - 1]);
            }
        }
        if lead_while(s, p) < s.len() {
            assert(s[lead_while(s, p) as int] == s.drop_first()[lead_while(s.drop_first(), p) as int]);
        }
    }
}

/// The count of leading characters that satisfy `p` is the `k` at which the
/// first one that does not stands.
pub proof fn lemma_lead_while_is(s: Text, p: spec_fn(char) -> bool, k: int)
    requires
        0 <= k <= s.len(),
        forall|i: int| 0 <= i < k ==> #[trigger] p(s[i]),
        k < s.len() ==> !p(s[k]),
    ensures
        lead_while(s, p) == k,
{
    lemma_lead_while(s, p);
    let l = lead_while(s, p) as int;
    if l < k {
        assert(p(s[l]));
    } else if k < l {
        assert(p(s[k]));
    }
}

pub proof fn lemma_trail_while(s: Text, p: spec_fn(char) -> bool)
    ensures
        trail_while(s, p) <= s.len(),
        forall|i: int| s.len() - trail_while(s, p) <= i < s.len() ==> #[trigger] p(s[i]),
        trail_while(s, p) < s.len() ==> !p(s[s.len() - trail_while(s, p) - 1]),
    decreases s.len(),
{
    if s.len() > 0 && p(s.last()) {
        lemma_trail_while(s.drop_last(), p);
        assert forall|i: int| s.len() - trail_while(s, p) <= i < s.len() implies #[trigger] p(
            s[i],
        ) by {
            if i < s.len() - 1 {
                assert(s[i] == s.drop_last()[i]);
            }
        }
        if trail_while(s, p) < s.len() {
            assert(s[s.len() - trail_while(s, p) - 1] == s.drop_last()[s.drop_last().len()
                - trail_while(s.drop_last(), p) - 1]);
        }
    }
}

pub proof fn lemma_trail_while_is(s: Text, p: spec_fn(char) -> bool, k: int)
    requires
        0 <= k <= s.len(),
        forall|i: int| s.len() - k <= i < s.len() ==> #[trigger] p(s[i]),
        k < s.len() ==> !p(s[s.len() - k - 1]),
    ensures
        trail_while(s, p) == k,
{
    lemma_trail_while(s, p);
    let l = trail_while(s, p) as int;
    if l < k {
        assert(p(s[s.len() - l - 1]));
    } else if k < l {
        assert(p(s[s.len() - k - 1]));
    }
}

/// Every token is non-empty and holds no whitespace.
pub proof fn lemma_split_ws(s: Text)
    ensures
        forall|i: int| 0 <= i < split_ws(s).len() ==> (#[trigger] split_ws(s)[i]).len() > 0,
        forall|i: int, j: int|
            0 <= i < split_ws(s).len() && 0 <= j < split_ws(s)[i].len() ==> !is_ws(
                #[trigger] split_ws(s)[i][j],
            ),
    decreases s.len(),
{
    if s.len() == 0 {
    } else if is_ws(s[0]) {
        lemma_split_ws(s.drop_first());
        assert(split_ws(s) == split_ws(s.drop_first()));
    } else {
        let k = lead_while(s, non_ws_pred());
        lemma_lead_while(s, non_ws_pred());
        assert(non_ws_pred()(s[0]));
        assert(k > 0);
        let rest = s.skip(k as int);
        lemma_split_ws(rest);
        let r = split_ws(s);
        assert(r == seq![s.take(k as int)] + split_ws(rest));
        assert forall|i: int, j: int|
            0 <= i < r.len() && 0 <= j < r[i].len() implies !is_ws(#[trigger] r[i][j]) by {
            if i == 0 {
                assert(r[0] == s.take(k as int));
                assert(r[0][j] == s[j]);
                assert(non_ws_pred()(s[j]));
            } else {
                assert(r[i] == split_ws(rest)[i - 1]);
            }
        }
        assert forall|i: int| 0 <= i < r.len() implies (#[trigger] r[i]).len() > 0 by {
            if i > 0 {
                assert(r[i] == split_ws(rest)[i - 1]);
            }
        }
    }
}

pub fn chars_of(s: &str) -> (r: Vec<char>)
    ensures
        r@ == s@,
{
    let mut v: Vec<char> = Vec::new();
    for c in it: s.chars()
        invariant
            v@ == it.seq().take(it.index() as int),
            it.seq() == s@,
    {
        v.push(c);
    }
    v
}

/// The characters of `v` from `a` up to `b`, as a `String`.
pub fn string_of(v: &Vec<char>, a: usize, b: usize) -> (r: String)
    requires
        a <= b <= v.len(),
    ensures
        r@ == v@.subrange(a as int, b as int),
{
    let mut s = String::new();
    let mut i = a;
    while i < b
        invariant
            a <= i <= b <= v.len(),
            s@ == v@.subrange(a as int, i as int),
        decreases b - i,
    {
        s.push(v[i]);
        assert(v@.subrange(a as int, i + 1) == v@.subrange(a as int, i as int).push(v@[i as int]));
        i += 1;
    }
    s
}

pub fn string_of_all(v: &Vec<char>) -> (r: String)
    ensures
        r@ == v@,
{
    let r = string_of(v, 0, v.len());
    assert(v@.subrange(0, v.len() as int) == v@);
    r
}

/// The characters of `v` from `a` up to `b`.
pub fn copy_range(v: &Vec<char>, a: usize, b: usize) -> (r: Vec<char>)
    requires
        a <= b <= v.len(),
    ensures
        r@ == v@.subrange(a as int, b as int),
{
    let mut out: Vec<char> = Vec::new();
    let mut i = a;
    while i < b
        invariant
            a <= i <= b <= v.len(),
            out@ == v@.subrange(a as int, i as int),
        decreases b - i,
    {
        out.push(v[i]);
        assert(v@.subrange(a as int, i + 1) == v@.subrange(a as int, i as int).push(v@[i as int]));
        i += 1;
    }
    out
}

pub fn is_ws_char(c: char) -> (b: bool)
    ensures
        b == is_ws(c),
{
    let u = c as u32;
    (0x9 <= u && u <= 0xd) || u == 0x20 || u == 0x85 || u == 0xa0 || u == 0x1680 || (0x2000 <= u
        && u <= 0x200a) || u == 0x2028 || u == 0x2029 || u == 0x202f || u == 0x205f || u == 0x3000
}

pub fn is_ascii_alpha_char(c: char) -> (b: bool)
    ensures
        b == is_ascii_alpha(c),
{
    let u = c as u32;
    (0x41 <= u && u <= 0x5a) || (0x61 <= u && u <= 0x7a)
}

pub open spec fn trim_pred(quotes: bool) -> spec_fn(char) -> bool {
    if quotes {
        quote_pred()
    } else {
        ws_pred()
    }
}

fn trim_pred_holds(c: char, quotes: bool) -> (b: bool)
    ensures
        b == trim_pred(quotes)(c),
{
    if quotes {
        c == '"'
    } else {
        is_ws_char(c)
    }
}

/// `trim` (whitespace) or `trim_quotes` (double quotes) of `s`.
pub fn trim_vec(s: &Vec<char>, quotes: bool) -> (r: Vec<char>)
    ensures
        r@ == trim_by(s@, trim_pred(quotes)),
{
    let ghost p = trim_pred(quotes);
    let n = s.len();
    let mut a: usize = 0;
    while a < n && trim_pred_holds(s[a], quotes)
        invariant
            a <= n == s.len(),
            p == trim_pred(quotes),
            forall|i: int| 0 <= i < a ==> #[trigger] p(s@[i]),
        decreases n - a,
    {
        a += 1;
    }
    let mut b: usize = n;
    while b > a && trim_pred_holds(s[b - 1], quotes)
        invariant
            a <= b <= n == s.len(),
            p == trim_pred(quotes),
            forall|i: int| b <= i < n ==> #[trigger] p(s@[i]),
        decreases b,
    {
        b -= 1;
    }
    proof {
        lemma_lead_while_is(s@, p, a as int);
        let t = s@.skip(a as int);
        assert forall|i: int| t.len() - (n - b) <= i < t.len() implies #[trigger] p(t[i]) by {
            assert(t[i] == s@[a + i]);
        }
        if n - b < t.len() {
            assert(t[t.len() - (n - b) - 1] == s@[b - 1]);
        }
        lemma_trail_while_is(t, p, (n - b) as int);
        assert(t.take(t.len() - (n - b)) =~= s@.subrange(a as int, b as int));
    }
    copy_range(s, a, b)
}

/// `str::split_whitespace`, collected.
pub fn split_ws_vec(s: &Vec<char>) -> (r: Vec<Vec<char>>)
    ensures
        texts_of(r@) == split_ws(s@),
{
    let n = s.len();
    let mut toks: Vec<Vec<char>> = Vec::new();
    let mut i: usize = 0;
    assert(s@.skip(0) =~= s@);
    while i < n
        invariant
            i <= n == s.len(),
            split_ws(s@) == texts_of(toks@) + split_ws(s@.skip(i as int)),
        decreases n - i,
    {
        let ghost rest = s@.skip(i as int);
        if is_ws_char(s[i]) {
            assert(rest[0] == s@[i as int]);
            assert(rest.drop_first() =~= s@.skip(i + 1));
            i += 1;
        } else {
            let mut j = i;
            while j < n && !is_ws_char(s[j])
                invariant
                    i <= j <= n == s.len(),
                    forall|m: int| i <= m < j ==> !is_ws(#[trigger] s@[m]),
                decreases n - j,
            {
                j += 1;
            }
            let word = copy_range(s, i, j);
            proof {
                assert(j > i) by {
                    assert(rest[0] == s@[i as int]);
                }
                assert forall|m: int| 0 <= m < j - i implies #[trigger] non_ws_pred()(rest[m]) by {
                    assert(rest[m] == s@[i + m]);
                }
                if j < n {
                    assert(rest[j - i] == s@[j as int]);
                }
                lemma_lead_while_is(rest, non_ws_pred(), j - i);
                assert(rest[0] == s@[i as int]);
                assert(rest.take(j - i) =~= s@.subrange(i as int, j as int));
                assert(rest.skip(j - i) =~= s@.skip(j as int));
                assert(texts_of(toks@.push(word)) =~= texts_of(toks@).push(word@));
            }
            toks.push(word);
            i = j;
        }
    }
    assert(s@.skip(n as int) =~= Seq::<char>::empty());
    assert(texts_of(toks@) + Seq::<Text>::empty() =~= texts_of(toks@));
    toks
}

/// `s` starts with the text of `lit`.
pub fn starts_with_lit(s: &Vec<char>, lit: &str) -> (b: bool)
    ensures
        b == starts_with(s@, lit@),
{
    let m = lit.unicode_len();
    if m > s.len() {
        return false;
    }
    let mut i: usize = 0;
    while i < m
        invariant
            i <= m <= s.len(),
            m == lit@.len(),
            forall|j: int| 0 <= j < i ==> s@[j] == lit@[j],
        decreases m - i,
    {
        if s[i] != lit.get_char(i) {
            assert(s@.take(m as int)[i as int] != lit@[i as int]);
            return false;
        }
        i += 1;
    }
    assert(s@.take(m as int) =~= lit@);
    true
}

/// `s` is the text of `lit`.
pub fn eq_lit(s: &Vec<char>, lit: &str) -> (b: bool)
    ensures
        b == (s@ == lit@),
{
    if s.len() != lit.unicode_len() {
        return false;
    }
    let r = starts_with_lit(s, lit);
    assert(s@.take(s@.len() as int) =~= s@);
    r
}

pub fn ci_char_eq_exec(c: char, l: char) -> (b: bool)
    ensures
        b == ci_char_eq(c, l),
{
    c == l || (0x61 <= (l as u32) && (l as u32) <= 0x7a && (c as u32) + 32 == (l as u32))
}

/// The characters of `s` from `a` up to `b` equal `lit`, ignoring ASCII case.
pub fn ci_eq_at(s: &Vec<char>, a: usize, b: usize, lit: &str) -> (r: bool)
    requires
        a <= b <= s.len(),
    ensures
        r == ci_eq(s@.subrange(a as int, b as int), lit@),
{
    let ghost t = s@.subrange(a as int, b as int);
    let m = lit.unicode_len();
    if b - a != m {
        return false;
    }
    let mut i: usize = 0;
    while i < m
        invariant
            i <= m == b - a,
            a <= b <= s.len(),
            m == lit@.len(),
            t == s@.subrange(a as int, b as int),
            forall|j: int| 0 <= j < i ==> ci_char_eq(#[trigger] t[j], lit@[j]),
        decreases m - i,
    {
        if !ci_char_eq_exec(s[a + i], lit.get_char(i)) {
            assert(t[i as int] == s@[a + i]);
            return false;
        }
        assert(t[i as int] == s@[a + i]);
        i += 1;
    }
    true
}

/// `s` ends with `lit`, ignoring ASCII case.
pub fn ci_ends_with_lit(s: &Vec<char>, lit: &str) -> (r: bool)
    ensures
        r == ci_ends_with(s@, lit@),
{
    let m = lit.unicode_len();
    if m > s.len() {
        return false;
    }
    let r = ci_eq_at(s, s.len() - m, s.len(), lit);
    assert(s@.skip(s.len() - m) =~= s@.subrange(s.len() - m, s.len() as int));
    r
}

/// Index of the first `c` in `s` at or after `from`, or `s.len()`.
pub fn find_char_from(s: &Vec<char>, from: usize, c: char) -> (r: usize)
    requires
        from <= s.len(),
    ensures
        r == from + lead_while(s@.skip(from as int), other_than(c)),
        r <= s.len(),
        r < s.len() ==> s@[r as int] == c,
{
    let mut i = from;
    while i < s.len() && s[i] != c
        invariant
            from <= i <= s.len(),
            forall|j: int| from <= j < i ==> s@[j] != c,
        decreases s.len() - i,
    {
        i += 1;
    }
    proof {
        let t = s@.skip(from as int);
        assert forall|j: int| 0 <= j < i - from implies #[trigger] other_than(c)(t[j]) by {
            assert(t[j] == s@[from + j]);
        }
        if i < s.len() {
            assert(t[i - from] == s@[i as int]);
        }
        lemma_lead_while_is(t, other_than(c), i - from);
    }
    i
}

} // verus!
