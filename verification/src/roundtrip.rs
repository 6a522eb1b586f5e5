//! Reading back what was written: [`crate::format::format_sch_content`]
//! followed by [`crate::parse::parse_sch_txt_content`].
use vstd::prelude::*;
use crate::text::{
    Text, is_ws, trim, trim_by, ws_pred, non_ws_pred, lead_while, trail_while, split_ws, starts_with,
    other_than, lemma_lead_while, lemma_lead_while_is, lemma_trail_while_is, lemma_trail_while,
};
use crate::parse::{ParseState, step, run_text};

verus! {

/// Non-empty text without whitespace.
pub open spec fn is_token(t: Text) -> bool {
    &&& t.len() > 0
    &&& forall|i: int| 0 <= i < t.len() ==> !is_ws(#[trigger] t[i])
}

/// Each line followed by `\r\n`.
pub open spec fn lines_text(ls: Seq<Text>) -> Text
    decreases ls.len(),
{
    if ls.len() == 0 {
        seq![]
    } else {
        ls[0] + "\r\n"@ + lines_text(ls.drop_first())
    }
}

/// The lines read one after another.
pub open spec fn fold_steps(st: ParseState, ls: Seq<Text>) -> ParseState
    decreases ls.len(),
{
    if ls.len() == 0 {
        st
    } else {
        fold_steps(step(st, ls[0]), ls.drop_first())
    }
}

/// A line without a line feed: written with `\r\n` after it, it is read
/// as one line.
pub open spec fn clean_line(l: Text) -> bool {
    !l.contains('\n')
}

pub proof fn lemma_lines_text_append(a: Seq<Text>, b: Seq<Text>)
    ensures
        lines_text(a + b) == lines_text(a) + lines_text(b),
    decreases a.len(),
{
    if a.len() == 0 {
        assert(a + b =~= b);
        assert(lines_text(a) + lines_text(b) =~= lines_text(b));
    } else {
        assert((a + b).drop_first() =~= a.drop_first() + b);
        lemma_lines_text_append(a.drop_first(), b);
        assert(lines_text(a + b) =~= lines_text(a) + lines_text(b));
    }
}

pub proof fn lemma_fold_steps_append(st: ParseState, a: Seq<Text>, b: Seq<Text>)
    ensures
        fold_steps(st, a + b) == fold_steps(fold_steps(st, a), b),
    decreases a.len(),
{
    if a.len() == 0 {
        assert(a + b =~= b);
    } else {
        assert((a + b).drop_first() =~= a.drop_first() + b);
        assert((a + b)[0] == a[0]);
        lemma_fold_steps_append(step(st, a[0]), a.drop_first(), b);
    }
}

pub proof fn lemma_fold_steps_push(st: ParseState, a: Seq<Text>, l: Text)
    ensures
        fold_steps(st, a.push(l)) == step(fold_steps(st, a), l),
{
    assert(a.push(l) =~= a + seq![l]);
    lemma_fold_steps_append(st, a, seq![l]);
    let x = fold_steps(st, a);
    assert(seq![l].drop_first() =~= Seq::<Text>::empty());
    assert(seq![l][0] == l);
    assert(fold_steps(x, seq![l]) == fold_steps(step(x, l), seq![l].drop_first()));
    assert(fold_steps(step(x, l), Seq::<Text>::empty()) == step(x, l));
}

/// A `\r` at the end changes nothing that trimming keeps.
pub proof fn lemma_trim_clean(l: Text)
    ensures
        trim(l.push('\r')) == trim(l),
{
    let s = l.push('\r');
    let p = ws_pred();
    assert(is_ws('\r'));
    lemma_lead_while(l, p);
    let a = lead_while(l, p) as int;
    if a == l.len() {
        assert forall|i: int| 0 <= i < s.len() implies #[trigger] p(s[i]) by {
            if i < l.len() {
                assert(s[i] == l[i]);
            }
        }
        lemma_lead_while_is(s, p, s.len() as int);
        assert(s.skip(s.len() as int).len() == 0);
        assert(l.skip(a).len() == 0);
        assert(trim(s) =~= Seq::<char>::empty());
        assert(trim(l) =~= Seq::<char>::empty());
    } else {
        assert forall|i: int| 0 <= i < a implies #[trigger] p(s[i]) by {
            assert(s[i] == l[i]);
        }
        assert(s[a] == l[a]);
        lemma_lead_while_is(s, p, a);
        let tl = l.skip(a);
        let ts = s.skip(a);
        assert(ts =~= tl.push('\r'));
        lemma_trail_while(tl, p);
        let b = trail_while(tl, p) as int;
        assert(!p(tl[0]));
        if b == tl.len() {
            assert(p(tl[0]));
        }
        assert forall|i: int| ts.len() - (b + 1) <= i < ts.len() implies #[trigger] p(ts[i]) by {
            if i < tl.len() {
                assert(ts[i] == tl[i]);
            }
        }
        assert(ts[ts.len() - (b + 1) - 1] == tl[tl.len() - b - 1]);
        lemma_trail_while_is(ts, p, b + 1);
        assert(ts.take(ts.len() - (b + 1)) =~= tl.take(tl.len() - b));
    }
}

/// Reading a clean line and its `\r\n`.
pub proof fn lemma_run_line(st: ParseState, l: Text, rest: Text)
    requires
        clean_line(l),
    ensures
        run_text(st, l + "\r\n"@ + rest) == run_text(step(st, l), rest),
{
    reveal_strlit("\r\n");
    let s = l + "\r\n"@ + rest;
    let n = l.len() as int;
    assert(s[n] == '\r');
    assert(s[n + 1] == '\n');
    assert forall|i: int| 0 <= i < n + 1 implies #[trigger] other_than('\n')(s[i]) by {
        if i < n {
            assert(s[i] == l[i]);
            assert(!l.contains('\n'));
            if s[i] == '\n' {
                assert(l.contains(l[i]));
            }
        }
    }
    lemma_lead_while_is(s, other_than('\n'), n + 1);
    assert(s.take(n + 1) =~= l.push('\r'));
    assert(s.skip(n + 2) =~= rest);
    lemma_trim_clean(l);
    assert(step(st, l.push('\r')) == step(st, l));
}

/// Reading clean lines, each with its `\r\n`.
pub proof fn lemma_run_lines(st: ParseState, ls: Seq<Text>, rest: Text)
    requires
        forall|i: int| 0 <= i < ls.len() ==> clean_line(#[trigger] ls[i]),
    ensures
        run_text(st, lines_text(ls) + rest) == run_text(fold_steps(st, ls), rest),
    decreases ls.len(),
{
    if ls.len() == 0 {
        assert(lines_text(ls) + rest =~= rest);
    } else {
        let tail = ls.drop_first();
        assert forall|i: int| 0 <= i < tail.len() implies clean_line(#[trigger] tail[i]) by {
            assert(tail[i] == ls[i + 1]);
        }
        assert(lines_text(ls) + rest =~= ls[0] + "\r\n"@ + (lines_text(tail) + rest));
        lemma_run_line(st, ls[0], lines_text(tail) + rest);
        lemma_run_lines(step(st, ls[0]), tail, rest);
    }
}

/// A token followed by a space and more text splits into the token and the
/// tokens of the rest.
pub proof fn lemma_split_token_space(a: Text, rest: Text)
    requires
        is_token(a),
    ensures
        split_ws(a + seq![' '] + rest) == seq![a] + split_ws(rest),
{
    let s = a + seq![' '] + rest;
    let n = a.len() as int;
    assert forall|i: int| 0 <= i < n implies #[trigger] non_ws_pred()(s[i]) by {
        assert(s[i] == a[i]);
    }
    assert(s[n] == ' ');
    assert(is_ws(' '));
    lemma_lead_while_is(s, non_ws_pred(), n as int);
    assert(s[0] == a[0]);
    assert(s.take(n as int) =~= a);
    let t = s.skip(n as int);
    assert(t =~= seq![' '] + rest);
    assert(t[0] == ' ');
    assert(t.drop_first() =~= rest);
    assert(!is_ws(a[0]));
    assert(!is_ws(s[0]));
    assert(split_ws(t) == split_ws(t.drop_first()));
    assert(split_ws(s) == seq![s.take(n as int)] + split_ws(s.skip(n as int)));
}

/// A token alone is its only token.
pub proof fn lemma_split_token(a: Text)
    requires
        is_token(a),
    ensures
        split_ws(a) == seq![a],
{
    let n = a.len() as int;
    assert forall|i: int| 0 <= i < n implies #[trigger] non_ws_pred()(a[i]) by {}
    lemma_lead_while_is(a, non_ws_pred(), n as int);
    assert(a.take(n as int) =~= a);
    assert(a.skip(n as int) =~= Seq::<char>::empty());
    assert(!is_ws(a[0]));
    assert(split_ws(a) == seq![a.take(n as int)] + split_ws(a.skip(n as int)));
    assert(split_ws(Seq::<char>::empty()) == Seq::<Text>::empty());
    assert(seq![a] + Seq::<Text>::empty() =~= seq![a]);
}

/// A line that starts with a token and a space starts with a space-free
/// pattern only when the token does.
pub proof fn lemma_token_prefix(d: Text, r: Text, w: Text)
    requires
        is_token(d),
        forall|i: int| 0 <= i < w.len() ==> w[i] != ' ',
        starts_with(d + seq![' '] + r, w),
    ensures
        starts_with(d, w),
{
    let s = d + seq![' '] + r;
    if w.len() > d.len() {
        assert(s.take(w.len() as int)[d.len() as int] == s[d.len() as int]);
        assert(w[d.len() as int] == ' ');
    } else {
        assert forall|i: int| 0 <= i < w.len() implies d.take(w.len() as int)[i] == w[i] by {
            assert(s.take(w.len() as int)[i] == s[i]);
            assert(s[i] == d[i]);
        }
        assert(d.take(w.len() as int) =~= w);
    }
}

/// `s` does not start with `w` when they differ at `i`.
pub proof fn lemma_not_starts_at(s: Text, w: Text, i: int)
    requires
        0 <= i < s.len(),
        i < w.len(),
        s[i] != w[i],
    ensures
        !starts_with(s, w),
{
    if starts_with(s, w) {
        assert(s.take(w.len() as int)[i] == s[i]);
    }
}

/// A clean non-empty line is its own trim.
pub proof fn lemma_trim_is(l: Text)
    requires
        l.len() > 0,
        !is_ws(l[0]),
        !is_ws(l.last()),
    ensures
        trim(l) == l,
{
    lemma_lead_while_is(l, ws_pred(), 0);
    assert(l.skip(0) =~= l);
    lemma_trail_while_is(l, ws_pred(), 0);
    assert(l.take(l.len() as int) =~= l);
}

/// The trim of `s` is `s[a..s.len() - b]` when `a` characters lead and `b`
/// trail that satisfy `p`, with a character that does not between them.
pub proof fn lemma_trim_by_is(s: Text, p: spec_fn(char) -> bool, a: int, b: int)
    requires
        0 <= a,
        0 <= b,
        a + b < s.len(),
        forall|i: int| 0 <= i < a ==> #[trigger] p(s[i]),
        !p(s[a]),
        forall|i: int| s.len() - b <= i < s.len() ==> #[trigger] p(s[i]),
        !p(s[s.len() - b - 1]),
    ensures
        trim_by(s, p) == s.subrange(a, s.len() - b),
{
    lemma_lead_while_is(s, p, a);
    let t = s.skip(a);
    assert forall|i: int| t.len() - b <= i < t.len() implies #[trigger] p(t[i]) by {
        assert(t[i] == s[a + i]);
    }
    assert(t[t.len() - b - 1] == s[s.len() - b - 1]);
    lemma_trail_while_is(t, p, b);
    assert(t.take(t.len() - b) =~= s.subrange(a, s.len() - b));
}

/// Text that starts with a character other than whitespace has a token.
pub proof fn lemma_split_nonempty(s: Text)
    requires
        s.len() > 0,
        !is_ws(s[0]),
    ensures
        split_ws(s).len() > 0,
{
    lemma_lead_while(s, non_ws_pred());
    assert(non_ws_pred()(s[0]));
}

} // verus!
