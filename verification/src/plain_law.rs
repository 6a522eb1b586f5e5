//! Texts without `*` and line feeds stay so through writing and reading:
//! every name and attribute that the reader takes from such lines is part
//! of one of them.
use vstd::prelude::*;
use crate::text::{
    Text, is_ws, trim, trim_by, trim_quotes, split_ws, starts_with, lead_while, trail_while,
    other_than, ws_pred, non_ws_pred, quote_pred, lemma_lead_while, lemma_trail_while,
};
use crate::model::{PartV, AttrsV, key_index, assoc_insert, entry_or, lemma_key_index};
use crate::parse::{
    ParseState, Section, step, set_part_attr, device_of, footprint_of, is_coord,
};
use crate::format::attr_or;
use crate::roundtrip::fold_steps;
use crate::roundtrip_law::{
    inert_part, part_body, device_text, footprint_text, x_text, y_text, quiet_line, lemma_no_header,
    lemma_step_quiet,
};

verus! {

/// Text with neither `*` nor a line feed.
pub open spec fn plain(t: Text) -> bool {
    !t.contains('*') && !t.contains('\n')
}

/// Attributes whose keys and values are plain.
pub open spec fn attrs_plain(a: AttrsV) -> bool {
    forall|j: int| 0 <= j < a.len() ==> plain((#[trigger] a[j]).0) && plain(a[j].1)
}

/// Parts whose names, attribute keys and values are plain.
pub open spec fn parts_plain(ps: Seq<PartV>) -> bool {
    forall|i: int| 0 <= i < ps.len() ==> plain((#[trigger] ps[i]).0) && attrs_plain(ps[i].1)
}

/// A part whose written texts (designator, device, footprint, coordinates)
/// are plain.
pub open spec fn plain_part(p: PartV) -> bool {
    &&& plain(p.0)
    &&& plain(device_text(p))
    &&& plain(footprint_text(p))
    &&& plain(x_text(p))
    &&& plain(y_text(p))
}

pub proof fn lemma_plain_sub(s: Text, a: int, b: int)
    requires
        plain(s),
        0 <= a <= b <= s.len(),
    ensures
        plain(s.subrange(a, b)),
{
    let t = s.subrange(a, b);
    if t.contains('*') {
        let i = choose|i: int| 0 <= i < t.len() && t[i] == '*';
        assert(s[a + i] == '*');
        assert(s.contains(s[a + i]));
    }
    if t.contains('\n') {
        let i = choose|i: int| 0 <= i < t.len() && t[i] == '\n';
        assert(s[a + i] == '\n');
        assert(s.contains(s[a + i]));
    }
}

pub proof fn lemma_plain_concat(a: Text, b: Text)
    requires
        plain(a),
        plain(b),
    ensures
        plain(a + b),
{
    let t = a + b;
    if t.contains('*') {
        let i = choose|i: int| 0 <= i < t.len() && t[i] == '*';
        if i < a.len() {
            assert(a.contains(a[i]));
        } else {
            assert(b.contains(b[i - a.len()]));
        }
    }
    if t.contains('\n') {
        let i = choose|i: int| 0 <= i < t.len() && t[i] == '\n';
        if i < a.len() {
            assert(a.contains(a[i]));
        } else {
            assert(b.contains(b[i - a.len()]));
        }
    }
}

proof fn lemma_plain_trim_by(s: Text, p: spec_fn(char) -> bool)
    requires
        plain(s),
    ensures
        plain(trim_by(s, p)),
{
    lemma_lead_while(s, p);
    let k = lead_while(s, p) as int;
    let t = s.skip(k);
    assert(t =~= s.subrange(k, s.len() as int));
    lemma_plain_sub(s, k, s.len() as int);
    lemma_trail_while(t, p);
    let n = t.len() - trail_while(t, p);
    assert(t.take(n) =~= t.subrange(0, n));
    lemma_plain_sub(t, 0, n);
}

proof fn lemma_plain_split(s: Text)
    requires
        plain(s),
    ensures
        forall|i: int| 0 <= i < split_ws(s).len() ==> plain(#[trigger] split_ws(s)[i]),
    decreases s.len(),
{
    if s.len() == 0 {
    } else if is_ws(s[0]) {
        assert(s.drop_first() =~= s.subrange(1, s.len() as int));
        lemma_plain_sub(s, 1, s.len() as int);
        lemma_plain_split(s.drop_first());
        assert(split_ws(s) == split_ws(s.drop_first()));
    } else {
        let k = lead_while(s, non_ws_pred());
        lemma_lead_while(s, non_ws_pred());
        assert(non_ws_pred()(s[0]));
        assert(k > 0);
        let rest = s.skip(k as int);
        assert(rest =~= s.subrange(k as int, s.len() as int));
        lemma_plain_sub(s, k as int, s.len() as int);
        lemma_plain_split(rest);
        assert(s.take(k as int) =~= s.subrange(0, k as int));
        lemma_plain_sub(s, 0, k as int);
        let r = split_ws(s);
        assert(r == seq![s.take(k as int)] + split_ws(rest));
        assert forall|i: int| 0 <= i < r.len() implies plain(#[trigger] r[i]) by {
            if i > 0 {
                assert(r[i] == split_ws(rest)[i - 1]);
            }
        }
    }
}

proof fn lemma_plain_device_of(s: Text)
    requires
        plain(s),
    ensures
        plain(device_of(s)),
        footprint_of(s) matches Some(f) ==> plain(f),
{
    lemma_lead_while(s, other_than('@'));
    let at = lead_while(s, other_than('@')) as int;
    assert(device_of(s) =~= s.subrange(0, at));
    lemma_plain_sub(s, 0, at);
    if at < s.len() {
        let rest = s.skip(at + 1);
        assert(rest =~= s.subrange(at + 1, s.len() as int));
        lemma_plain_sub(s, at + 1, s.len() as int);
        lemma_lead_while(rest, other_than('@'));
        let e = lead_while(rest, other_than('@')) as int;
        assert(rest.take(e) =~= rest.subrange(0, e));
        lemma_plain_sub(rest, 0, e);
    }
}

proof fn lemma_attrs_insert_plain(a: AttrsV, k: Text, v: Text)
    requires
        attrs_plain(a),
        plain(k),
        plain(v),
    ensures
        attrs_plain(assoc_insert(a, k, v)),
{
    let r = assoc_insert(a, k, v);
    lemma_key_index(a, k);
    assert forall|j: int| 0 <= j < r.len() implies plain((#[trigger] r[j]).0) && plain(r[j].1) by {
        if j < a.len() && r[j] != a[j] {
            assert(r[j] == (k, v));
        } else if j >= a.len() {
            assert(r[j] == (k, v));
        }
    }
}

proof fn lemma_entry_or_plain(ps: Seq<PartV>, d: Text)
    requires
        parts_plain(ps),
        plain(d),
    ensures
        parts_plain(entry_or(ps, d, seq![])),
{
    let r = entry_or(ps, d, seq![]);
    assert forall|i: int| 0 <= i < r.len() implies plain((#[trigger] r[i]).0) && attrs_plain(r[i].1) by {
        if i < ps.len() {
            assert(r[i] == ps[i]);
        } else {
            assert(r[i] == (d, Seq::<(Text, Text)>::empty()));
        }
    }
}

proof fn lemma_set_attr_plain(ps: Seq<PartV>, pn: Text, k: Text, v: Text)
    requires
        parts_plain(ps),
        plain(k),
        plain(v),
    ensures
        parts_plain(set_part_attr(ps, pn, k, v)),
{
    let r = set_part_attr(ps, pn, k, v);
    let i = key_index(ps, pn);
    lemma_key_index(ps, pn);
    if i >= 0 {
        lemma_attrs_insert_plain(ps[i].1, k, v);
        assert forall|j: int| 0 <= j < r.len() implies plain((#[trigger] r[j]).0) && attrs_plain(r[j].1) by {
            if j != i {
                assert(r[j] == ps[j]);
            }
        }
    }
}

proof fn lemma_names_plain()
    ensures
        plain("x"@),
        plain("y"@),
        plain("Device"@),
        plain("Footprint"@),
{
    reveal_strlit("x");
    reveal_strlit("y");
    reveal_strlit("Device");
    reveal_strlit("Footprint");
    assert(!"x"@.contains('*') && !"x"@.contains('\n'));
    assert(!"y"@.contains('*') && !"y"@.contains('\n'));
    assert(!"Device"@.contains('*') && !"Device"@.contains('\n'));
    assert(!"Footprint"@.contains('*') && !"Footprint"@.contains('\n'));
}

/// Plain text is read as one line and is no section header.
pub proof fn lemma_plain_quiet(l: Text)
    requires
        plain(l),
    ensures
        quiet_line(l),
        plain(trim(l)),
{
    lemma_plain_trim_by(l, ws_pred());
    let t = trim(l);
    reveal_strlit("*");
    if starts_with(t, "*"@) {
        assert(t.take(1)[0] == t[0]);
        assert(t.contains(t[0]));
    }
}

/// A plain line of the `*PART*` or `*SCH*` section keeps the parts plain.
proof fn lemma_step_plain(st: ParseState, l: Text)
    requires
        st.section == Section::Part || st.section == Section::Sch,
        plain(l),
        parts_plain(st.model.parts),
    ensures
        parts_plain(step(st, l).model.parts),
{
    lemma_plain_quiet(l);
    lemma_names_plain();
    let t = trim(l);
    if t.len() > 0 {
        assert(t[0] != '*') by {
            if t[0] == '*' {
                assert(t.contains(t[0]));
            }
        }
        lemma_no_header(t);
        let toks = split_ws(t);
        lemma_plain_split(t);
        let ps = st.model.parts;
        if toks.len() >= 2 {
            let p1 = entry_or(ps, toks[1], seq![]);
            lemma_entry_or_plain(ps, toks[1]);
            if toks.len() >= 4 {
                lemma_set_attr_plain(p1, toks[1], "x"@, toks[2]);
                lemma_set_attr_plain(set_part_attr(p1, toks[1], "x"@, toks[2]), toks[1], "y"@, toks[3]);
            }
        }
        if toks.len() >= 1 {
            let d = toks[0];
            let p1 = entry_or(ps, d, seq![]);
            lemma_entry_or_plain(ps, d);
            if toks.len() >= 2 {
                lemma_plain_device_of(toks[1]);
                lemma_set_attr_plain(p1, d, "Device"@, device_of(toks[1]));
                match footprint_of(toks[1]) {
                    Some(fp) => {
                        lemma_set_attr_plain(
                            set_part_attr(p1, d, "Device"@, device_of(toks[1])),
                            d,
                            "Footprint"@,
                            fp,
                        );
                    },
                    None => {},
                }
            }
        }
        if toks.len() >= 2 {
            match st.part {
                Some(pn) => {
                    let i = key_index(ps, pn);
                    lemma_key_index(ps, pn);
                    if i >= 0 {
                        let a1 = assoc_insert(ps[i].1, "x"@, toks[0]);
                        lemma_attrs_insert_plain(ps[i].1, "x"@, toks[0]);
                        lemma_attrs_insert_plain(a1, "y"@, toks[1]);
                        let r = ps.update(i, (ps[i].0, assoc_insert(a1, "y"@, toks[1])));
                        assert forall|j: int| 0 <= j < r.len() implies plain((#[trigger] r[j]).0) && attrs_plain(
                            r[j].1,
                        ) by {
                            if j != i {
                                assert(r[j] == ps[j]);
                            }
                        }
                    }
                },
                None => {},
            }
        }
        match st.part {
            Some(pn) => {
                let q: int = 1 + lead_while(t.skip(1), other_than('"')) as int;
                if q < t.len() {
                    lemma_lead_while(t.skip(1), other_than('"'));
                    lemma_plain_sub(t, 1, q);
                    let rest = t.skip(q + 1);
                    assert(rest =~= t.subrange(q + 1, t.len() as int));
                    lemma_plain_sub(t, q + 1, t.len() as int);
                    lemma_plain_trim_by(rest, ws_pred());
                    lemma_plain_trim_by(trim(rest), quote_pred());
                    lemma_set_attr_plain(ps, pn, t.subrange(1, q), trim_quotes(trim(rest)));
                }
            },
            None => {},
        }
    }
}

/// Plain lines of the `*PART*` or `*SCH*` section keep the parts plain and
/// leave the section as it was.
pub proof fn lemma_fold_plain(st: ParseState, ls: Seq<Text>)
    requires
        st.section == Section::Part || st.section == Section::Sch,
        forall|i: int| 0 <= i < ls.len() ==> plain(#[trigger] ls[i]),
        parts_plain(st.model.parts),
    ensures
        parts_plain(fold_steps(st, ls).model.parts),
    decreases ls.len(),
{
    if ls.len() > 0 {
        let tail = ls.drop_first();
        assert(plain(ls[0]));
        lemma_step_plain(st, ls[0]);
        lemma_plain_quiet(ls[0]);
        lemma_step_quiet(st, ls[0]);
        assert forall|i: int| 0 <= i < tail.len() implies plain(#[trigger] tail[i]) by {
            assert(tail[i] == ls[i + 1]);
        }
        lemma_fold_plain(step(st, ls[0]), tail);
    }
}

/// What holds of every entry of a sequence holds of every entry of a
/// filtered copy.
pub proof fn lemma_filter_keeps<A>(s: Seq<A>, pred: spec_fn(A) -> bool, q: spec_fn(A) -> bool)
    requires
        forall|i: int| 0 <= i < s.len() ==> q(#[trigger] s[i]),
    ensures
        forall|i: int| 0 <= i < s.filter(pred).len() ==> q(#[trigger] s.filter(pred)[i]),
    decreases s.len(),
{
    reveal(Seq::filter);
    if s.len() > 0 {
        let init = s.drop_last();
        assert forall|i: int| 0 <= i < init.len() implies q(#[trigger] init[i]) by {
            assert(init[i] == s[i]);
        }
        lemma_filter_keeps(init, pred, q);
        let f = init.filter(pred);
        let last = s[s.len() - 1];
        assert(q(last));
        if pred(last) {
            assert(s.filter(pred) == f.push(last));
            assert forall|i: int| 0 <= i < f.len() + 1 implies q(#[trigger] f.push(last)[i]) by {
                if i < f.len() {
                    assert(f.push(last)[i] == f[i]);
                }
            }
        } else {
            assert(s.filter(pred) == f);
        }
    }
}

/// The value of an attribute of plain attributes, or a plain default, is
/// plain.
pub proof fn lemma_attr_or_plain(a: AttrsV, k: Text, d: Text)
    requires
        attrs_plain(a),
        plain(d),
    ensures
        plain(attr_or(a, k, d)),
{
    lemma_key_index(a, k);
}

/// A part of plain parts is a plain part.
pub proof fn lemma_plain_part_of(p: PartV)
    requires
        plain(p.0),
        attrs_plain(p.1),
    ensures
        plain_part(p),
{
    reveal_strlit("0");
    assert(!"0"@.contains('*') && !"0"@.contains('\n'));
    let e: Text = seq![];
    assert(!e.contains('*') && !e.contains('\n'));
    lemma_attr_or_plain(p.1, "Device"@, seq![]);
    lemma_attr_or_plain(p.1, "Footprint"@, seq![]);
    lemma_attr_or_plain(p.1, "x"@, "0"@);
    lemma_attr_or_plain(p.1, "y"@, "0"@);
}

/// A plain part writes only lines that read as one line each and none as
/// a section header.
pub proof fn lemma_plain_inert(p: PartV)
    requires
        plain_part(p),
    ensures
        inert_part(p),
{
    reveal_strlit(" ");
    reveal_strlit("@");
    assert(plain(" "@)) by {
        assert(!" "@.contains('*') && !" "@.contains('\n'));
    }
    assert(plain("@"@)) by {
        assert(!"@"@.contains('*') && !"@"@.contains('\n'));
    }
    lemma_plain_concat(p.0, " "@);
    lemma_plain_concat(p.0 + " "@, device_text(p));
    lemma_plain_concat(p.0 + " "@ + device_text(p), "@"@);
    lemma_plain_concat(p.0 + " "@ + device_text(p) + "@"@, footprint_text(p));
    assert(plain(part_body(p)));
    lemma_plain_quiet(part_body(p));
}

} // verus!
