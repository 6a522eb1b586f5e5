//! How the reader turns coordinate lines into segments: the points of one
//! polyline are collected until a line that is not a coordinate pair, and
//! then joined pairwise.
use vstd::prelude::*;
use crate::text::{Text, trim, split_ws, starts_with, is_ws};
use crate::number::{is_float_literal, lemma_digits_are_float};
use crate::parse::{ParseState, Section, step, segments, is_coord};
use crate::roundtrip::{lemma_split_nonempty, is_token, lemma_split_token_space, lemma_split_token, lemma_trim_is};
use crate::roundtrip_law::lemma_no_header;

verus! {

/// A polyline of `k` points, given as `x0, y0, x1, y1, ...`, gives `k - 1`
/// segments (none for fewer than two points), each with four ends: two
/// consecutive points.
pub proof fn lemma_segments(pts: Seq<Text>)
    requires
        pts.len() % 2 == 0,
    ensures
        segments(pts).len() == (if pts.len() >= 4 {
            pts.len() / 2 - 1
        } else {
            0
        }),
        forall|j: int|
            0 <= j < segments(pts).len() ==> #[trigger] segments(pts)[j] == (
                pts[2 * j],
                pts[2 * j + 1],
                pts[2 * j + 2],
                pts[2 * j + 3],
            ),
{
}

/// Trimmed text that is not empty starts with other than whitespace.
proof fn lemma_trim_first(raw: Text)
    requires
        trim(raw).len() > 0,
    ensures
        !is_ws(trim(raw)[0]),
{
    crate::text::lemma_lead_while(raw, crate::text::ws_pred());
    let k = crate::text::lead_while(raw, crate::text::ws_pred());
    let t = raw.skip(k as int);
    crate::text::lemma_trail_while(t, crate::text::ws_pred());
    assert(trim(raw) == t.take(t.len() - crate::text::trail_while(t, crate::text::ws_pred())));
    assert(trim(raw)[0] == t[0]);
    assert(t[0] == raw[k as int]);
}

/// In the `*LINES*`, `*NET*` and `*CONNECTION*` sections, a line that is not
/// a coordinate pair (and does not start with `*`) ends the polyline: its
/// points become segments after those read before, and the next point
/// starts a new polyline.
pub proof fn lemma_polyline_break(st: ParseState, raw: Text)
    requires
        st.section == Section::Lines || st.section == Section::Net || st.section == Section::Connection,
        trim(raw).len() > 0,
        trim(raw)[0] != '*',
        !is_coord(split_ws(trim(raw))),
    ensures
        step(st, raw).points == Seq::<Text>::empty(),
        step(st, raw).model.lines == st.model.lines + segments(st.points),
{
    let line = trim(raw);
    lemma_no_header(line);
    lemma_trim_first(raw);
    lemma_split_nonempty(line);
    reveal_strlit("*SIGNAL* ");
    reveal_strlit("*");
    crate::roundtrip::lemma_not_starts_at(line, "*SIGNAL* "@, 0);
    crate::roundtrip::lemma_not_starts_at(line, "*"@, 0);
}

/// In those sections, a coordinate pair of two float literals extends the
/// polyline by one point and adds no segment.
pub proof fn lemma_polyline_point(st: ParseState, raw: Text)
    requires
        st.section == Section::Lines || st.section == Section::Net || st.section == Section::Connection,
        trim(raw).len() > 0,
        trim(raw)[0] != '*',
        is_coord(split_ws(trim(raw))),
        is_float_literal(split_ws(trim(raw))[0]),
        is_float_literal(split_ws(trim(raw))[1]),
    ensures
        step(st, raw).points == st.points.push(split_ws(trim(raw))[0]).push(split_ws(trim(raw))[1]),
        step(st, raw).model.lines == st.model.lines,
{
    let line = trim(raw);
    lemma_no_header(line);
    reveal_strlit("*SIGNAL* ");
    reveal_strlit("*");
    crate::roundtrip::lemma_not_starts_at(line, "*SIGNAL* "@, 0);
    crate::roundtrip::lemma_not_starts_at(line, "*"@, 0);
}

/// In those sections, a line of two runs of decimal digits, such as
/// `900 0`, is a coordinate pair: it extends the polyline by the point it
/// gives and adds no segment.
pub proof fn lemma_digit_pair_adds_point(st: ParseState, a: Text, b: Text)
    requires
        st.section == Section::Lines || st.section == Section::Net || st.section == Section::Connection,
        a.len() > 0,
        b.len() > 0,
        forall|i: int| 0 <= i < a.len() ==> 0x30 <= (#[trigger] a[i] as u32) <= 0x39,
        forall|i: int| 0 <= i < b.len() ==> 0x30 <= (#[trigger] b[i] as u32) <= 0x39,
    ensures
        step(st, a + seq![' '] + b).points == st.points.push(a).push(b),
        step(st, a + seq![' '] + b).model.lines == st.model.lines,
{
    let l = a + seq![' '] + b;
    lemma_digits_are_float(a, seq![]);
    lemma_digits_are_float(b, seq![]);
    assert(is_token(a)) by {
        assert forall|i: int| 0 <= i < a.len() implies !is_ws(#[trigger] a[i]) by {
            assert(0x30 <= (a[i] as u32) <= 0x39);
        }
    }
    assert(is_token(b)) by {
        assert forall|i: int| 0 <= i < b.len() implies !is_ws(#[trigger] b[i]) by {
            assert(0x30 <= (b[i] as u32) <= 0x39);
        }
    }
    assert(l[0] == a[0]);
    assert(l.last() == b.last());
    assert(!is_ws(b[b.len() - 1]));
    lemma_trim_is(l);
    lemma_split_token_space(a, b);
    lemma_split_token(b);
    assert(split_ws(trim(l)) =~= seq![a, b]);
    assert(trim(l)[0] != '*') by {
        assert(0x30 <= (a[0] as u32) <= 0x39);
    }
    lemma_polyline_point(st, l);
}

} // verus!
