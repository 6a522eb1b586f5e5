//! The laws that tie writing to reading: a schematic whose names and values
//! are single tokens is read back, after being written, with every part's
//! device, footprint and position and every net with its pins in order; and
//! the nets, and a part that reads back, are read back whatever the other
//! parts hold, as long as no line written for them reads as a section
//! header or breaks in two (and, for a part, as long as the others'
//! designators read back).
use vstd::prelude::*;
use crate::text::{Text, is_ws, trim, split_ws, starts_with, is_ascii_alpha, lead_while, other_than, trim_quotes, non_ws_pred, lemma_lead_while_is, quote_pred, ws_pred, trim_by};
use crate::number::is_float_literal;
use crate::plain_law::{
    plain, plain_part, parts_plain, attrs_plain, lemma_plain_inert, lemma_plain_quiet, lemma_plain_concat,
    lemma_fold_plain, lemma_filter_keeps,
};
use crate::model::{SchModel, PartV, NetV, SegV, AttrsV, keys_unique, key_index, has_key, lookup, assoc_insert, entry_or, lemma_key_index, lemma_key_index_is, lemma_key_index_none, lemma_same_keys};
use crate::parse::{
    ParseState, Section, step, run_text, init_state, finish, flush, segments, header_section,
    body_step, part_step, define_step, net_step, quoted_attr, set_part_attr, net_add_pin, add_pins,
    pin_ok, is_coord, device_of, footprint_of, keep_part, keep_part_pred, parse_model, empty_model,
};
use crate::format::{
    format_model, attr_or, part_line, part_lines, pin_lines, net_block, net_blocks, sch_block,
    sch_blocks, header_text,
};
use crate::roundtrip::{
    is_token, lines_text, fold_steps, clean_line, lemma_lines_text_append, lemma_fold_steps_append,
    lemma_fold_steps_push, lemma_run_lines, lemma_split_token_space, lemma_split_token,
    lemma_token_prefix, lemma_not_starts_at, lemma_trim_is, lemma_trim_by_is, lemma_split_nonempty,
};

verus! {

pub open spec fn device_text(p: PartV) -> Text {
    attr_or(p.1, "Device"@, seq![])
}

pub open spec fn footprint_text(p: PartV) -> Text {
    attr_or(p.1, "Footprint"@, seq![])
}

pub open spec fn x_text(p: PartV) -> Text {
    attr_or(p.1, "x"@, "0"@)
}

pub open spec fn y_text(p: PartV) -> Text {
    attr_or(p.1, "y"@, "0"@)
}

/// A designator that the `*PART*` list reads back as one: a token that
/// starts with an ASCII letter, holds no `"` and no `-`, does not start like
/// a `TEXT`, `OPEN`, `LINE` or `BORDER` record, is not `PART` and is not a
/// float literal.
pub open spec fn writable_designator(d: Text) -> bool {
    &&& is_token(d)
    &&& is_ascii_alpha(d[0])
    &&& !d.contains('"')
    &&& !d.contains('-')
    &&& !starts_with(d, "TEXT"@)
    &&& !starts_with(d, "OPEN"@)
    &&& !starts_with(d, "LINE"@)
    &&& !starts_with(d, "BORDER"@)
    &&& d != "PART"@
    &&& !is_float_literal(d)
}

/// A part whose lines read back: its device is a token without `@`, its
/// footprint is empty or a token without `@`, and its coordinates (`0` when
/// unset) are tokens.
pub open spec fn writable_part(p: PartV) -> bool {
    &&& writable_designator(p.0)
    &&& is_token(device_text(p))
    &&& !device_text(p).contains('@')
    &&& (footprint_text(p).len() == 0 || (is_token(footprint_text(p)) && !footprint_text(p).contains('@')))
    &&& is_token(x_text(p))
    &&& is_token(y_text(p))
}

/// A pin that the `*NET*` list reads back: a token that does not start with
/// `*` and is a pin name.
pub open spec fn writable_pin(p: Text) -> bool {
    &&& is_token(p)
    &&& p[0] != '*'
    &&& pin_ok(p)
}

pub open spec fn writable_net(n: NetV) -> bool {
    &&& is_token(n.0)
    &&& forall|j: int| 0 <= j < n.1.len() ==> writable_pin(#[trigger] n.1[j])
}

/// A schematic that reads back after being written.
pub open spec fn writable(m: SchModel) -> bool {
    &&& m.wf()
    &&& forall|i: int| 0 <= i < m.parts.len() ==> writable_part(#[trigger] m.parts[i])
    &&& forall|i: int| 0 <= i < m.nets.len() ==> writable_net(#[trigger] m.nets[i])
}

/// The `*PART*` entry read back: the device, and the footprint when there
/// is one.
pub open spec fn def_entry(p: PartV) -> PartV {
    let dev = device_text(p);
    let fp = footprint_text(p);
    (p.0, if fp.len() > 0 {
        seq![("Device"@, dev), ("Footprint"@, fp)]
    } else {
        seq![("Device"@, dev)]
    })
}

/// The text of a part's `*SCH*` record after `PART `: designator,
/// position (`0` when unset) and `0 0`.
pub open spec fn sch_record(p: PartV) -> Text {
    p.0 + " "@ + x_text(p) + " "@ + y_text(p) + " 0 0"@
}

pub open spec fn def_entries(ps: Seq<PartV>) -> Seq<PartV> {
    ps.map_values(|p: PartV| def_entry(p))
}

/// The position that a part's `*SCH*` record gives back: `x` and `y`, when
/// both are float literals.
pub open spec fn xy_entries(p: PartV) -> AttrsV {
    if is_float_literal(x_text(p)) && is_float_literal(y_text(p)) {
        seq![("x"@, x_text(p)), ("y"@, y_text(p))]
    } else {
        seq![]
    }
}

/// A part as it is read back: the device, the footprint when there is one,
/// and the position.
pub open spec fn reread_entry(p: PartV) -> PartV {
    (p.0, def_entry(p).1 + xy_entries(p))
}

pub open spec fn reread_entries(ps: Seq<PartV>) -> Seq<PartV> {
    ps.map_values(|p: PartV| reread_entry(p))
}

/// What reading the written text gives: each part with its device, its
/// footprint and its position, the nets unchanged, and no segments.
pub open spec fn reread_model(m: SchModel) -> SchModel {
    SchModel { parts: reread_entries(m.parts), nets: m.nets, lines: seq![] }
}

pub open spec fn header_line() -> Text {
    "!PADS-POWERLOGIC-V3.0-ANSIC! DESIGN-UNITS-ENGLISH"@
}

pub open spec fn part_body(p: PartV) -> Text {
    let dev = device_text(p);
    let fp = footprint_text(p);
    if fp.len() > 0 {
        p.0 + " "@ + dev + "@"@ + fp
    } else {
        p.0 + " "@ + dev
    }
}

pub open spec fn part_bodies(ps: Seq<PartV>) -> Seq<Text> {
    ps.map_values(|p: PartV| part_body(p))
}

pub open spec fn signal_line(n: NetV) -> Text {
    "*SIGNAL* "@ + n.0
}

pub open spec fn net_lines_of(n: NetV) -> Seq<Text> {
    seq![signal_line(n)] + n.1
}

pub open spec fn nets_lines(ns: Seq<NetV>) -> Seq<Text>
    decreases ns.len(),
{
    if ns.len() == 0 {
        seq![]
    } else {
        nets_lines(ns.drop_last()) + net_lines_of(ns.last())
    }
}

pub open spec fn device_line(p: PartV) -> Text {
    "\"Device\" \""@ + device_text(p) + "\""@
}

pub open spec fn sch_lines_of(p: PartV) -> Seq<Text> {
    seq!["PART "@ + sch_record(p), device_line(p)]
}

pub open spec fn schs_lines(ps: Seq<PartV>) -> Seq<Text>
    decreases ps.len(),
{
    if ps.len() == 0 {
        seq![]
    } else {
        schs_lines(ps.drop_last()) + sch_lines_of(ps.last())
    }
}

pub open spec fn all_lines(m: SchModel) -> Seq<Text> {
    seq![header_line(), seq![], "*PART*"@] + part_bodies(m.parts) + seq![seq![], "*NET*"@] + nets_lines(
        m.nets,
    ) + seq![seq![], "*SCH*"@] + schs_lines(m.parts) + seq![seq![], "*END*"@]
}

proof fn lemma_lines_one(l: Text)
    ensures
        lines_text(seq![l]) == l + "\r\n"@,
{
    assert(seq![l].drop_first() =~= Seq::<Text>::empty());
    assert(seq![l][0] == l);
    assert(lines_text(Seq::<Text>::empty()) == Seq::<char>::empty());
    assert(lines_text(seq![l]) == l + "\r\n"@ + lines_text(Seq::<Text>::empty()));
    assert(l + "\r\n"@ + Seq::<char>::empty() =~= l + "\r\n"@);
}

proof fn lemma_lines_two(l1: Text, l2: Text)
    ensures
        lines_text(seq![l1, l2]) == l1 + "\r\n"@ + l2 + "\r\n"@,
{
    assert(seq![l1, l2] =~= seq![l1] + seq![l2]);
    lemma_lines_text_append(seq![l1], seq![l2]);
    lemma_lines_one(l1);
    lemma_lines_one(l2);
    assert(l1 + "\r\n"@ + (l2 + "\r\n"@) =~= l1 + "\r\n"@ + l2 + "\r\n"@);
}

proof fn lemma_lines_three(l1: Text, l2: Text, l3: Text)
    ensures
        lines_text(seq![l1, l2, l3]) == l1 + "\r\n"@ + l2 + "\r\n"@ + l3 + "\r\n"@,
{
    assert(seq![l1, l2, l3] =~= seq![l1, l2] + seq![l3]);
    lemma_lines_text_append(seq![l1, l2], seq![l3]);
    lemma_lines_two(l1, l2);
    lemma_lines_one(l3);
    assert(l1 + "\r\n"@ + l2 + "\r\n"@ + (l3 + "\r\n"@) =~= l1 + "\r\n"@ + l2 + "\r\n"@ + l3 + "\r\n"@);
}

proof fn lemma_part_lines(ps: Seq<PartV>)
    ensures
        part_lines(ps) == lines_text(part_bodies(ps)),
    decreases ps.len(),
{
    if ps.len() > 0 {
        lemma_part_lines(ps.drop_last());
        assert(part_bodies(ps) =~= part_bodies(ps.drop_last()) + seq![part_body(ps.last())]);
        lemma_lines_text_append(part_bodies(ps.drop_last()), seq![part_body(ps.last())]);
        lemma_lines_one(part_body(ps.last()));
        assert(part_line(ps.last()) =~= part_body(ps.last()) + "\r\n"@);
        assert(part_lines(ps) =~= lines_text(part_bodies(ps)));
    } else {
        assert(part_bodies(ps) =~= Seq::<Text>::empty());
    }
}

proof fn lemma_pin_lines(pins: Seq<Text>)
    ensures
        pin_lines(pins) == lines_text(pins),
    decreases pins.len(),
{
    if pins.len() > 0 {
        lemma_pin_lines(pins.drop_last());
        assert(pins =~= pins.drop_last() + seq![pins.last()]);
        lemma_lines_text_append(pins.drop_last(), seq![pins.last()]);
        lemma_lines_one(pins.last());
        assert(pin_lines(pins) =~= lines_text(pins));
    }
}

proof fn lemma_net_blocks(ns: Seq<NetV>)
    ensures
        net_blocks(ns) == lines_text(nets_lines(ns)),
    decreases ns.len(),
{
    if ns.len() > 0 {
        lemma_net_blocks(ns.drop_last());
        let n = ns.last();
        lemma_pin_lines(n.1);
        lemma_lines_text_append(seq![signal_line(n)], n.1);
        lemma_lines_one(signal_line(n));
        lemma_lines_text_append(nets_lines(ns.drop_last()), net_lines_of(n));
        assert(net_block(n) =~= lines_text(net_lines_of(n)));
        assert(net_blocks(ns) =~= lines_text(nets_lines(ns)));
    }
}

proof fn lemma_sch_blocks(ps: Seq<PartV>)
    ensures
        sch_blocks(ps) == lines_text(schs_lines(ps)),
    decreases ps.len(),
{
    if ps.len() > 0 {
        lemma_sch_blocks(ps.drop_last());
        let p = ps.last();
        reveal_strlit(" 0 0\r\n");
        reveal_strlit(" 0 0");
        reveal_strlit("\r\n");
        reveal_strlit("\"\r\n");
        reveal_strlit("\"");
        let l1 = "PART "@ + sch_record(p);
        let l2 = device_line(p);
        assert(sch_lines_of(p) =~= seq![l1] + seq![l2]);
        lemma_lines_text_append(seq![l1], seq![l2]);
        lemma_lines_one(l1);
        lemma_lines_one(l2);
        assert(sch_block(p) =~= lines_text(sch_lines_of(p)));
        lemma_lines_text_append(schs_lines(ps.drop_last()), sch_lines_of(p));
        assert(sch_blocks(ps) =~= lines_text(schs_lines(ps)));
    }
}

/// The written text is the lines of [`all_lines`], each ended by `\r\n`.
pub proof fn lemma_format_lines(m: SchModel)
    ensures
        format_model(m) == lines_text(all_lines(m)),
{
    lemma_part_lines(m.parts);
    lemma_net_blocks(m.nets);
    lemma_sch_blocks(m.parts);
    reveal_strlit("!PADS-POWERLOGIC-V3.0-ANSIC! DESIGN-UNITS-ENGLISH\r\n\r\n");
    reveal_strlit("!PADS-POWERLOGIC-V3.0-ANSIC! DESIGN-UNITS-ENGLISH");
    reveal_strlit("\r\n");
    reveal_strlit("*PART*\r\n");
    reveal_strlit("*PART*");
    reveal_strlit("*NET*\r\n");
    reveal_strlit("*NET*");
    reveal_strlit("*SCH*\r\n");
    reveal_strlit("*SCH*");
    reveal_strlit("*END*\r\n");
    reveal_strlit("*END*");
    let a = seq![header_line(), seq![], "*PART*"@];
    let b = part_bodies(m.parts);
    let c = seq![seq![], "*NET*"@];
    let d = nets_lines(m.nets);
    let e = seq![seq![], "*SCH*"@];
    let f = schs_lines(m.parts);
    let g = seq![seq![], "*END*"@];
    lemma_lines_text_append(a, b);
    lemma_lines_text_append(a + b, c);
    lemma_lines_text_append(a + b + c, d);
    lemma_lines_text_append(a + b + c + d, e);
    lemma_lines_text_append(a + b + c + d + e, f);
    lemma_lines_text_append(a + b + c + d + e + f, g);
    lemma_lines_three(header_line(), seq![], "*PART*"@);
    assert(lines_text(a) =~= header_text() + "*PART*\r\n"@);
    lemma_lines_two(seq![], "*NET*"@);
    assert(lines_text(c) =~= "\r\n"@ + "*NET*\r\n"@);
    lemma_lines_two(seq![], "*SCH*"@);
    assert(lines_text(e) =~= "\r\n"@ + "*SCH*\r\n"@);
    lemma_lines_two(seq![], "*END*"@);
    assert(lines_text(g) =~= "\r\n"@ + "*END*\r\n"@);
    assert(format_model(m) =~= lines_text(all_lines(m)));
}

/// A blank line changes nothing.
proof fn lemma_step_blank(st: ParseState)
    ensures
        step(st, seq![]) == st,
{
    let e: Text = seq![];
    crate::text::lemma_lead_while(e, ws_pred());
    crate::text::lemma_trail_while(e.skip(0), ws_pred());
    assert(trim(e).len() == 0);
}

/// A section header switches the section and forgets the current part.
proof fn lemma_step_header(st: ParseState, w: Text, sec: Section)
    requires
        w.len() > 0,
        !is_ws(w[0]),
        !is_ws(w.last()),
        header_section(w) == Some(sec),
    ensures
        step(st, w) == st.with_section(sec).with_part(None),
{
    lemma_trim_is(w);
}

proof fn lemma_starts_self(w: Text)
    ensures
        starts_with(w, w),
{
    assert(w.take(w.len() as int) =~= w);
}

proof fn lemma_header_part()
    ensures
        header_section("*PART*"@) == Some(Section::Part),
        "*PART*"@.len() > 0,
        !is_ws("*PART*"@[0]),
        !is_ws("*PART*"@.last()),
{
    reveal_strlit("*PART*");
    lemma_starts_self("*PART*"@);
}

proof fn lemma_header_net()
    ensures
        header_section("*NET*"@) == Some(Section::Net),
        "*NET*"@.len() > 0,
        !is_ws("*NET*"@[0]),
        !is_ws("*NET*"@.last()),
{
    reveal_strlit("*NET*");
    reveal_strlit("*PART*");
    lemma_not_starts_at("*NET*"@, "*PART*"@, 1);
    lemma_starts_self("*NET*"@);
}

proof fn lemma_header_sch()
    ensures
        header_section("*SCH*"@) == Some(Section::Sch),
        "*SCH*"@.len() > 0,
        !is_ws("*SCH*"@[0]),
        !is_ws("*SCH*"@.last()),
{
    reveal_strlit("*SCH*");
    reveal_strlit("*PART*");
    reveal_strlit("*NET*");
    reveal_strlit("*CONNECTION*");
    lemma_not_starts_at("*SCH*"@, "*PART*"@, 1);
    lemma_not_starts_at("*SCH*"@, "*NET*"@, 1);
    lemma_not_starts_at("*SCH*"@, "*CONNECTION*"@, 1);
    lemma_starts_self("*SCH*"@);
}

proof fn lemma_header_end()
    ensures
        header_section("*END*"@) == Some(Section::Ignore),
        "*END*"@.len() > 0,
        !is_ws("*END*"@[0]),
        !is_ws("*END*"@.last()),
{
    reveal_strlit("*END*");
    reveal_strlit("*PART*");
    reveal_strlit("*NET*");
    reveal_strlit("*CONNECTION*");
    reveal_strlit("*SCH*");
    reveal_strlit("*LINES*");
    reveal_strlit("*");
    reveal_strlit("*SIGNAL*");
    lemma_not_starts_at("*END*"@, "*PART*"@, 1);
    lemma_not_starts_at("*END*"@, "*NET*"@, 1);
    lemma_not_starts_at("*END*"@, "*CONNECTION*"@, 1);
    lemma_not_starts_at("*END*"@, "*SCH*"@, 1);
    lemma_not_starts_at("*END*"@, "*LINES*"@, 1);
    lemma_not_starts_at("*END*"@, "*SIGNAL*"@, 1);
    assert("*END*"@.take(1) =~= "*"@);
}

/// A line whose first character is not `*` is no section header.
pub proof fn lemma_no_header(l: Text)
    requires
        l.len() > 0,
        l[0] != '*',
    ensures
        header_section(l).is_none(),
{
    reveal_strlit("*PART*");
    reveal_strlit("*NET*");
    reveal_strlit("*CONNECTION*");
    reveal_strlit("*SCH*");
    reveal_strlit("*LINES*");
    reveal_strlit("*");
    lemma_not_starts_at(l, "*PART*"@, 0);
    lemma_not_starts_at(l, "*NET*"@, 0);
    lemma_not_starts_at(l, "*CONNECTION*"@, 0);
    lemma_not_starts_at(l, "*SCH*"@, 0);
    lemma_not_starts_at(l, "*LINES*"@, 0);
    lemma_not_starts_at(l, "*"@, 0);
}

/// The file's first line changes nothing at the start.
proof fn lemma_step_first(st: ParseState)
    requires
        st.section == Section::Start,
        st.part.is_none(),
    ensures
        step(st, header_line()) == st,
{
    reveal_strlit("!PADS-POWERLOGIC-V3.0-ANSIC! DESIGN-UNITS-ENGLISH");
    reveal_strlit("TEXT");
    reveal_strlit("OPEN");
    reveal_strlit("LINE");
    reveal_strlit("BORDER");
    reveal_strlit("PART ");
    let l = header_line();
    assert(!is_ws(l[0]));
    assert(!is_ws(l.last()));
    lemma_trim_is(l);
    lemma_no_header(l);
    lemma_split_nonempty(l);
    lemma_not_starts_at(l, "TEXT"@, 0);
    lemma_not_starts_at(l, "OPEN"@, 0);
    lemma_not_starts_at(l, "LINE"@, 0);
    lemma_not_starts_at(l, "BORDER"@, 0);
    lemma_not_starts_at(l, "PART "@, 0);
}

/// An ASCII letter is none of the characters that open special lines.
proof fn lemma_alpha_not_special(c: char)
    requires
        is_ascii_alpha(c),
    ensures
        c != '*',
        c != '"',
        c != '-',
        !is_ws(c),
{
}

/// A token followed by a space starts like `PART ` only when it is `PART`.
proof fn lemma_not_part_prefix(d: Text, r: Text)
    requires
        is_token(d),
        d != "PART"@,
    ensures
        !starts_with(d + seq![' '] + r, "PART "@),
{
    reveal_strlit("PART ");
    reveal_strlit("PART");
    let s = d + seq![' '] + r;
    let w = "PART "@;
    if starts_with(s, w) {
        if d.len() >= 5 {
            assert(s.take(5)[4] == s[4]);
            assert(s[4] == d[4]);
            assert(is_ws(w[4]));
        } else if d.len() < 4 {
            assert(s.take(5)[d.len() as int] == s[d.len() as int]);
            assert(s[d.len() as int] == ' ');
        } else {
            assert forall|i: int| 0 <= i < 4 implies d[i] == "PART"@[i] by {
                assert(s.take(5)[i] == s[i]);
                assert(s[i] == d[i]);
            }
            assert(d =~= "PART"@);
        }
    }
}

proof fn lemma_no_char_at(t: Text, c: char, i: int)
    requires
        !t.contains(c),
        0 <= i < t.len(),
    ensures
        t[i] != c,
{
    if t[i] == c {
        assert(t.contains(t[i]));
    }
}

/// The value of an association list that holds one entry.
proof fn lemma_insert_empty(k: Text, v: Text)
    ensures
        assoc_insert(Seq::<(Text, Text)>::empty(), k, v) == seq![(k, v)],
{
    let e = Seq::<(Text, Text)>::empty();
    assert(key_index(e, k) == -1);
    assert(e.push((k, v)) =~= seq![(k, v)]);
}

/// Reading the `*PART*` line of a part adds its entry.
proof fn lemma_step_part_line(st: ParseState, p: PartV)
    requires
        st.section == Section::Part,
        writable_part(p),
        !has_key(st.model.parts, p.0),
    ensures
        step(st, part_body(p)) == st.with_part(Some(p.0)).with_parts(
            st.model.parts.push(def_entry(p)),
        ),
{
    reveal_strlit(" ");
    reveal_strlit("@");
    reveal_strlit("TEXT");
    reveal_strlit("OPEN");
    reveal_strlit("LINE");
    reveal_strlit("BORDER");
    reveal_strlit("\"");
    reveal_strlit("Device");
    reveal_strlit("Footprint");
    let d = p.0;
    let dev = device_text(p);
    let fp = footprint_text(p);
    let t1 = if fp.len() > 0 {
        dev + seq!['@'] + fp
    } else {
        dev
    };
    let l = part_body(p);
    assert(l =~= d + seq![' '] + t1);
    assert(is_token(t1)) by {
        assert forall|i: int| 0 <= i < t1.len() implies !is_ws(#[trigger] t1[i]) by {
            if fp.len() > 0 {
                if i < dev.len() {
                    assert(t1[i] == dev[i]);
                } else if i > dev.len() {
                    assert(t1[i] == fp[i - dev.len() - 1]);
                }
            }
        }
    }
    lemma_alpha_not_special(d[0]);
    assert(l[0] == d[0]);
    assert(l.last() == t1.last());
    assert(!is_ws(t1[t1.len() - 1]));
    lemma_trim_is(l);
    lemma_no_header(l);
    lemma_split_token_space(d, t1);
    lemma_split_token(t1);
    let toks = split_ws(l);
    assert(toks =~= seq![d, t1]);
    if starts_with(l, "TEXT"@) {
        lemma_token_prefix(d, t1, "TEXT"@);
    }
    if starts_with(l, "OPEN"@) {
        lemma_token_prefix(d, t1, "OPEN"@);
    }
    if starts_with(l, "LINE"@) {
        lemma_token_prefix(d, t1, "LINE"@);
    }
    if starts_with(l, "BORDER"@) {
        lemma_token_prefix(d, t1, "BORDER"@);
    }
    lemma_not_part_prefix(d, t1);
    lemma_not_starts_at(l, "\""@, 0);
    assert(!is_coord(toks));
    let parts = st.model.parts;
    let n = parts.len() as int;
    lemma_key_index(parts, d);
    let parts1 = entry_or(parts, d, seq![]);
    assert(parts1 == parts.push((d, seq![])));
    lemma_key_index_is(parts1, d, n);
    // the device and the footprint
    assert forall|i: int| 0 <= i < dev.len() implies #[trigger] other_than('@')(t1[i]) by {
        lemma_no_char_at(dev, '@', i);
        if fp.len() > 0 {
            assert(t1[i] == dev[i]);
        }
    }
    if fp.len() > 0 {
        assert(t1[dev.len() as int] == '@');
    }
    lemma_lead_while_is(t1, other_than('@'), dev.len() as int);
    assert(device_of(t1) =~= dev);
    lemma_insert_empty("Device"@, dev);
    let parts2 = set_part_attr(parts1, d, "Device"@, dev);
    assert(parts2 == parts1.update(n, (d, seq![("Device"@, dev)])));
    if fp.len() > 0 {
        let rest = t1.skip(dev.len() as int + 1);
        assert(rest =~= fp);
        assert forall|i: int| 0 <= i < fp.len() implies #[trigger] other_than('@')(fp[i]) by {
            lemma_no_char_at(fp, '@', i);
        }
        lemma_lead_while_is(fp, other_than('@'), fp.len() as int);
        assert(fp.take(fp.len() as int) =~= fp);
        assert(footprint_of(t1) == Some(fp));
        assert forall|j: int| 0 <= j < n implies parts2[j].0 != d by {
            assert(parts2[j] == parts[j]);
        }
        lemma_key_index_is(parts2, d, n);
        let a1: AttrsV = seq![("Device"@, dev)];
        assert("Device"@ != "Footprint"@) by {
            assert("Device"@.len() != "Footprint"@.len());
        }
        lemma_key_index_none(a1, "Footprint"@);
        assert(assoc_insert(a1, "Footprint"@, fp) =~= seq![("Device"@, dev), ("Footprint"@, fp)]);
        let parts3 = set_part_attr(parts2, d, "Footprint"@, fp);
        assert(parts3 =~= parts.push(def_entry(p)));
    } else {
        assert(footprint_of(t1).is_none());
        assert(parts2 =~= parts.push(def_entry(p)));
    }
}

proof fn lemma_no_nl_concat(a: Text, b: Text)
    requires
        !a.contains('\n'),
        !b.contains('\n'),
    ensures
        !(a + b).contains('\n'),
{
    if (a + b).contains('\n') {
        let i = choose|i: int| 0 <= i < (a + b).len() && (a + b)[i] == '\n';
        if i < a.len() {
            assert(a[i] == '\n');
            assert(a.contains(a[i]));
        } else {
            assert(b[i - a.len()] == '\n');
            assert(b.contains(b[i - a.len()]));
        }
    }
}

proof fn lemma_token_no_nl(t: Text)
    requires
        is_token(t),
    ensures
        !t.contains('\n'),
{
    if t.contains('\n') {
        let i = choose|i: int| 0 <= i < t.len() && t[i] == '\n';
        assert(!is_ws(t[i]));
    }
}

/// The middle of a part's `*PART*` line: device, and `@` footprint when
/// there is one.
pub open spec fn device_spec(p: PartV) -> Text {
    if footprint_text(p).len() > 0 {
        device_text(p) + seq!['@'] + footprint_text(p)
    } else {
        device_text(p)
    }
}

proof fn lemma_device_spec_token(p: PartV)
    requires
        writable_part(p),
    ensures
        is_token(device_spec(p)),
        part_body(p) == p.0 + seq![' '] + device_spec(p),
{
    reveal_strlit(" ");
    reveal_strlit("@");
    let dev = device_text(p);
    let fp = footprint_text(p);
    let t1 = device_spec(p);
    assert forall|i: int| 0 <= i < t1.len() implies !is_ws(#[trigger] t1[i]) by {
        if fp.len() > 0 {
            if i < dev.len() {
                assert(t1[i] == dev[i]);
            } else if i > dev.len() {
                assert(t1[i] == fp[i - dev.len() - 1]);
            }
        }
    }
    assert(part_body(p) =~= p.0 + seq![' '] + t1);
}

proof fn lemma_part_body_clean(p: PartV)
    requires
        writable_part(p),
    ensures
        clean_line(part_body(p)),
{
    lemma_device_spec_token(p);
    let t1 = device_spec(p);
    lemma_token_no_nl(p.0);
    lemma_token_no_nl(t1);
    assert(!seq![' '].contains('\n')) by {
        if seq![' '].contains('\n') {
            let i = choose|i: int| 0 <= i < 1 && seq![' '][i] == '\n';
        }
    }
    lemma_no_nl_concat(p.0, seq![' ']);
    lemma_no_nl_concat(p.0 + seq![' '], t1);
    let l = part_body(p);
    assert(l[0] == p.0[0]);
    assert(l.last() == t1.last());
    assert(!is_ws(t1[t1.len() - 1]));
}

proof fn lemma_part_bodies_clean(ps: Seq<PartV>)
    requires
        forall|i: int| 0 <= i < ps.len() ==> inert_part(#[trigger] ps[i]),
    ensures
        forall|i: int| 0 <= i < part_bodies(ps).len() ==> clean_line(#[trigger] part_bodies(ps)[i]),
{
    assert forall|i: int| 0 <= i < part_bodies(ps).len() implies clean_line(#[trigger] part_bodies(ps)[i]) by {
        assert(inert_part(ps[i]));
        assert(part_bodies(ps)[i] == part_body(ps[i]));
    }
}

proof fn lemma_signal_clean(n: NetV)
    requires
        writable_net(n),
    ensures
        clean_line(signal_line(n)),
{
    reveal_strlit("*SIGNAL* ");
    assert(!"*SIGNAL* "@.contains('\n'));
    lemma_token_no_nl(n.0);
    lemma_no_nl_concat("*SIGNAL* "@, n.0);
    let l = signal_line(n);
    assert(l[0] == '*');
    assert(l.last() == n.0.last());
    assert(!is_ws(n.0[n.0.len() - 1]));
}

proof fn lemma_nets_lines_clean(ns: Seq<NetV>)
    requires
        forall|i: int| 0 <= i < ns.len() ==> writable_net(#[trigger] ns[i]),
    ensures
        forall|i: int| 0 <= i < nets_lines(ns).len() ==> clean_line(#[trigger] nets_lines(ns)[i]),
    decreases ns.len(),
{
    if ns.len() > 0 {
        let init = ns.drop_last();
        assert forall|i: int| 0 <= i < init.len() implies writable_net(#[trigger] init[i]) by {
            assert(init[i] == ns[i]);
        }
        lemma_nets_lines_clean(init);
        let n = ns.last();
        lemma_signal_clean(n);
        let a = nets_lines(init);
        let b = net_lines_of(n);
        assert forall|i: int| 0 <= i < nets_lines(ns).len() implies clean_line(#[trigger] nets_lines(ns)[i]) by {
            if i < a.len() {
                assert(nets_lines(ns)[i] == a[i]);
            } else {
                let j = i - a.len();
                assert(nets_lines(ns)[i] == b[j]);
                if j > 0 {
                    assert(b[j] == n.1[j - 1]);
                    assert(writable_pin(n.1[j - 1]));
                    lemma_token_no_nl(n.1[j - 1]);
                    assert(!is_ws(n.1[j - 1][n.1[j - 1].len() - 1]));
                }
            }
        }
    }
}

proof fn lemma_sch_record_facts(p: PartV)
    requires
        !p.0.contains('\n'),
        !x_text(p).contains('\n'),
        !y_text(p).contains('\n'),
    ensures
        !sch_record(p).contains('\n'),
        sch_record(p).len() >= 4,
        sch_record(p).last() == '0',
{
    reveal_strlit(" ");
    reveal_strlit(" 0 0");
    let k = sch_record(p);
    let d = p.0;
    assert(!" "@.contains('\n'));
    assert(!" 0 0"@.contains('\n'));
    lemma_no_nl_concat(d, " "@);
    lemma_no_nl_concat(d + " "@, x_text(p));
    lemma_no_nl_concat(d + " "@ + x_text(p), " "@);
    lemma_no_nl_concat(d + " "@ + x_text(p) + " "@, y_text(p));
    lemma_no_nl_concat(d + " "@ + x_text(p) + " "@ + y_text(p), " 0 0"@);
    assert(k.last() == '0');
}

/// A part whose written lines each read as one line and none of them as a
/// section header or a `*SIGNAL*` line: its `*PART*` line holds no line
/// feed and, trimmed, does not start with `*`, and its designator,
/// coordinates and device hold no line feed.
pub open spec fn inert_part(p: PartV) -> bool {
    &&& !part_body(p).contains('\n')
    &&& !starts_with(trim(part_body(p)), "*"@)
    &&& !p.0.contains('\n')
    &&& !x_text(p).contains('\n')
    &&& !y_text(p).contains('\n')
    &&& !device_text(p).contains('\n')
}

/// A line that starts with a character other than whitespace and `*`
/// does not start with `*` when trimmed.
proof fn lemma_first_not_star(l: Text)
    requires
        l.len() > 0,
        !is_ws(l[0]),
        l[0] != '*',
    ensures
        !starts_with(trim(l), "*"@),
{
    reveal_strlit("*");
    lemma_lead_while_is(l, ws_pred(), 0);
    assert(l.skip(0) =~= l);
    crate::text::lemma_trail_while(l, ws_pred());
    let b = crate::text::trail_while(l, ws_pred());
    if b == l.len() {
        assert(ws_pred()(l[0]));
    }
    let t = trim(l);
    assert(t == l.take(l.len() - b));
    assert(t[0] == l[0]);
    if starts_with(t, "*"@) {
        assert(t.take(1)[0] == t[0]);
    }
}

/// Nets that read back: unique names, no pin twice, and names and pins
/// that are written as single tokens the reader takes for what they are.
pub open spec fn writable_nets(ns: Seq<NetV>) -> bool {
    &&& keys_unique(ns)
    &&& forall|i: int| 0 <= i < ns.len() ==> (#[trigger] ns[i].1).no_duplicates()
    &&& forall|i: int| 0 <= i < ns.len() ==> writable_net(#[trigger] ns[i])
}

/// A part that reads back writes only lines that read as one line each
/// and none as a section header.
pub proof fn lemma_writable_inert(p: PartV)
    requires
        writable_part(p),
    ensures
        inert_part(p),
{
    lemma_part_body_clean(p);
    lemma_device_spec_token(p);
    assert(part_body(p)[0] == p.0[0]);
    lemma_alpha_not_special(p.0[0]);
    lemma_first_not_star(part_body(p));
    lemma_token_no_nl(p.0);
    lemma_token_no_nl(x_text(p));
    lemma_token_no_nl(y_text(p));
    lemma_token_no_nl(device_text(p));
}

/// A line read as one line, that is no section header and no `*SIGNAL*`
/// line.
pub open spec fn quiet_line(l: Text) -> bool {
    clean_line(l) && !starts_with(trim(l), "*"@)
}

proof fn lemma_sch_lines_clean(ps: Seq<PartV>)
    requires
        forall|i: int| 0 <= i < ps.len() ==> inert_part(#[trigger] ps[i]),
    ensures
        forall|i: int| 0 <= i < schs_lines(ps).len() ==> quiet_line(#[trigger] schs_lines(ps)[i]),
    decreases ps.len(),
{
    if ps.len() > 0 {
        let init = ps.drop_last();
        assert forall|i: int| 0 <= i < init.len() implies inert_part(#[trigger] init[i]) by {
            assert(init[i] == ps[i]);
        }
        lemma_sch_lines_clean(init);
        let p = ps.last();
        lemma_sch_record_facts(p);
        reveal_strlit("PART ");
        reveal_strlit("\"Device\" \"");
        reveal_strlit("\"");
        let l1 = "PART "@ + sch_record(p);
        let l2 = device_line(p);
        assert(!"PART "@.contains('\n'));
        lemma_no_nl_concat("PART "@, sch_record(p));
        assert(l1[0] == 'P');
        assert(l1.last() == sch_record(p).last());
        let dev = device_text(p);
        assert(!"\"Device\" \""@.contains('\n'));
        assert(!"\""@.contains('\n'));
        lemma_no_nl_concat("\"Device\" \""@, dev);
        lemma_no_nl_concat("\"Device\" \""@ + dev, "\""@);
        assert(l2[0] == '"');
        assert(l2.last() == '"');
        lemma_first_not_star(l1);
        lemma_first_not_star(l2);
        let a = schs_lines(init);
        assert forall|i: int| 0 <= i < schs_lines(ps).len() implies quiet_line(#[trigger] schs_lines(ps)[i]) by {
            if i < a.len() {
                assert(schs_lines(ps)[i] == a[i]);
            } else if i == a.len() {
                assert(schs_lines(ps)[i] == l1);
            } else {
                assert(schs_lines(ps)[i] == l2);
            }
        }
    }
}

/// Reading the `*PART*` lines of `ps` adds their entries in order.
proof fn lemma_parts_phase(st: ParseState, ps: Seq<PartV>)
    requires
        st.section == Section::Part,
        forall|i: int| 0 <= i < ps.len() ==> writable_part(#[trigger] ps[i]),
        keys_unique(ps),
        forall|i: int, j: int| 0 <= i < ps.len() && 0 <= j < st.model.parts.len() ==> st.model.parts[j].0 != ps[i].0,
    ensures
        fold_steps(st, part_bodies(ps)).section == Section::Part,
        fold_steps(st, part_bodies(ps)).points == st.points,
        fold_steps(st, part_bodies(ps)).net == st.net,
        fold_steps(st, part_bodies(ps)).model == (SchModel {
            parts: st.model.parts + def_entries(ps),
            nets: st.model.nets,
            lines: st.model.lines,
        }),
    decreases ps.len(),
{
    if ps.len() == 0 {
        assert(part_bodies(ps) =~= Seq::<Text>::empty());
        assert(st.model.parts + def_entries(ps) =~= st.model.parts);
    } else {
        let init = ps.drop_last();
        let p = ps.last();
        assert forall|i: int| 0 <= i < init.len() implies writable_part(#[trigger] init[i]) by {
            assert(init[i] == ps[i]);
        }
        assert forall|a: int, b: int| 0 <= a < b < init.len() implies init[a].0 != init[b].0 by {
            assert(init[a] == ps[a]);
            assert(init[b] == ps[b]);
        }
        lemma_parts_phase(st, init);
        assert(part_bodies(ps) =~= part_bodies(init).push(part_body(p)));
        lemma_fold_steps_push(st, part_bodies(init), part_body(p));
        let s1 = fold_steps(st, part_bodies(init));
        let cur = st.model.parts + def_entries(init);
        assert forall|j: int| 0 <= j < cur.len() implies cur[j].0 != p.0 by {
            if j < st.model.parts.len() {
                assert(cur[j] == st.model.parts[j]);
            } else {
                let k = j - st.model.parts.len();
                assert(cur[j] == def_entry(init[k]));
                assert(init[k] == ps[k]);
                assert(ps[k].0 != ps[ps.len() - 1].0);
            }
        }
        lemma_key_index_none(cur, p.0);
        lemma_step_part_line(s1, p);
        assert(cur.push(def_entry(p)) =~= st.model.parts + def_entries(ps));
    }
}

proof fn lemma_flush_empty(st: ParseState)
    requires
        st.points.len() == 0,
    ensures
        flush(st) == st,
{
    assert(segments(st.points) =~= Seq::<SegV>::empty());
    assert(st.model.lines + segments(st.points) =~= st.model.lines);
    assert(flush(st).points =~= st.points);
}

/// Reading `*SIGNAL* NAME` opens net `NAME`.
proof fn lemma_step_signal(st: ParseState, n: NetV)
    requires
        st.section == Section::Net,
        st.points.len() == 0,
        writable_net(n),
        !has_key(st.model.nets, n.0),
    ensures
        step(st, signal_line(n)) == st.with_net(Some(n.0)).with_nets(st.model.nets.push((n.0, seq![]))),
{
    reveal_strlit("*SIGNAL* ");
    reveal_strlit("*SIGNAL*");
    reveal_strlit("*PART*");
    reveal_strlit("*NET*");
    reveal_strlit("*CONNECTION*");
    reveal_strlit("*SCH*");
    reveal_strlit("*LINES*");
    reveal_strlit("*");
    let l = signal_line(n);
    let sig = "*SIGNAL*"@;
    assert(l =~= sig + seq![' '] + n.0);
    assert(l.last() == n.0.last());
    assert(!is_ws(n.0[n.0.len() - 1]));
    lemma_trim_is(l);
    lemma_not_starts_at(l, "*PART*"@, 1);
    lemma_not_starts_at(l, "*NET*"@, 1);
    lemma_not_starts_at(l, "*CONNECTION*"@, 1);
    lemma_not_starts_at(l, "*SCH*"@, 2);
    lemma_not_starts_at(l, "*LINES*"@, 1);
    assert(l.take(8) =~= sig);
    assert(l.take(9) =~= "*SIGNAL* "@);
    assert(header_section(l).is_none());
    assert(is_token(sig));
    lemma_split_token_space(sig, n.0);
    lemma_split_token(n.0);
    assert(split_ws(l) =~= seq![sig, n.0]);
    lemma_flush_empty(st);
    lemma_key_index(st.model.nets, n.0);
}

/// Reading a pin line adds the pin to the open net.
proof fn lemma_step_pin(st: ParseState, pin: Text)
    requires
        st.section == Section::Net,
        st.points.len() == 0,
        st.model.nets.len() > 0,
        st.net == Some(st.model.nets.last().0),
        key_index(st.model.nets, st.model.nets.last().0) == st.model.nets.len() - 1,
        writable_pin(pin),
        !st.model.nets.last().1.contains(pin),
    ensures
        step(st, pin) == st.with_nets(
            st.model.nets.update(
                st.model.nets.len() - 1,
                (st.model.nets.last().0, st.model.nets.last().1.push(pin)),
            ),
        ),
{
    reveal_strlit("*SIGNAL* ");
    reveal_strlit("*");
    assert(!is_ws(pin[pin.len() - 1]));
    lemma_trim_is(pin);
    lemma_no_header(pin);
    lemma_split_token(pin);
    lemma_not_starts_at(pin, "*SIGNAL* "@, 0);
    lemma_not_starts_at(pin, "*"@, 0);
    lemma_flush_empty(st);
}

/// Reading one net's lines adds the net with its pins.
proof fn lemma_net_block(st: ParseState, n: NetV, k: int)
    requires
        st.section == Section::Net,
        st.points.len() == 0,
        writable_net(n),
        n.1.no_duplicates(),
        !has_key(st.model.nets, n.0),
        0 <= k <= n.1.len(),
    ensures
        fold_steps(st, seq![signal_line(n)] + n.1.take(k)) == st.with_net(Some(n.0)).with_nets(
            st.model.nets.push((n.0, n.1.take(k))),
        ),
    decreases k,
{
    let nets = st.model.nets;
    if k == 0 {
        assert(seq![signal_line(n)] + n.1.take(0) =~= seq![signal_line(n)]);
        lemma_fold_steps_push(st, Seq::<Text>::empty(), signal_line(n));
        assert(Seq::<Text>::empty().push(signal_line(n)) =~= seq![signal_line(n)]);
        lemma_step_signal(st, n);
        assert(n.1.take(0) =~= Seq::<Text>::empty());
    } else {
        lemma_net_block(st, n, k - 1);
        let ls = seq![signal_line(n)] + n.1.take(k - 1);
        assert(seq![signal_line(n)] + n.1.take(k) =~= ls.push(n.1[k - 1]));
        lemma_fold_steps_push(st, ls, n.1[k - 1]);
        let s1 = st.with_net(Some(n.0)).with_nets(nets.push((n.0, n.1.take(k - 1))));
        let nets1 = nets.push((n.0, n.1.take(k - 1)));
        lemma_key_index(nets, n.0);
        assert forall|j: int| 0 <= j < nets.len() implies nets1[j].0 != n.0 by {
            assert(nets1[j] == nets[j]);
        }
        lemma_key_index_is(nets1, n.0, nets.len() as int);
        assert(!n.1.take(k - 1).contains(n.1[k - 1])) by {
            if n.1.take(k - 1).contains(n.1[k - 1]) {
                let j = choose|j: int| 0 <= j < k - 1 && #[trigger] n.1.take(k - 1)[j] == n.1[k - 1];
                assert(n.1[j] == n.1[k - 1]);
            }
        }
        lemma_step_pin(s1, n.1[k - 1]);
        assert(n.1.take(k - 1).push(n.1[k - 1]) =~= n.1.take(k));
        assert(nets1.update(nets.len() as int, (n.0, n.1.take(k - 1).push(n.1[k - 1]))) =~= nets.push(
            (n.0, n.1.take(k)),
        ));
    }
}

/// Reading the `*NET*` lines of `ns` adds the nets in order.
proof fn lemma_nets_phase(st: ParseState, ns: Seq<NetV>)
    requires
        st.section == Section::Net,
        st.points.len() == 0,
        st.model.nets.len() == 0,
        forall|i: int| 0 <= i < ns.len() ==> writable_net(#[trigger] ns[i]),
        forall|i: int| 0 <= i < ns.len() ==> (#[trigger] ns[i].1).no_duplicates(),
        keys_unique(ns),
    ensures
        fold_steps(st, nets_lines(ns)).section == Section::Net,
        fold_steps(st, nets_lines(ns)).points.len() == 0,
        fold_steps(st, nets_lines(ns)).model == (SchModel {
            parts: st.model.parts,
            nets: ns,
            lines: st.model.lines,
        }),
    decreases ns.len(),
{
    if ns.len() == 0 {
        assert(st.model.nets =~= ns);
    } else {
        let init = ns.drop_last();
        let n = ns.last();
        assert forall|i: int| 0 <= i < init.len() implies writable_net(#[trigger] init[i]) by {
            assert(init[i] == ns[i]);
        }
        assert forall|i: int| 0 <= i < init.len() implies (#[trigger] init[i].1).no_duplicates() by {
            assert(init[i] == ns[i]);
        }
        assert forall|a: int, b: int| 0 <= a < b < init.len() implies init[a].0 != init[b].0 by {
            assert(init[a] == ns[a]);
            assert(init[b] == ns[b]);
        }
        lemma_nets_phase(st, init);
        let s1 = fold_steps(st, nets_lines(init));
        lemma_fold_steps_append(st, nets_lines(init), net_lines_of(n));
        assert forall|j: int| 0 <= j < init.len() implies init[j].0 != n.0 by {
            assert(init[j] == ns[j]);
        }
        lemma_key_index_none(init, n.0);
        lemma_net_block(s1, n, n.1.len() as int);
        assert(n.1.take(n.1.len() as int) =~= n.1);
        assert(init.push((n.0, n.1)) =~= ns);
    }
}

/// The tokens of a part's `*SCH*` record line.
proof fn lemma_record_tokens(p: PartV)
    requires
        is_token(p.0),
        is_token(x_text(p)),
        is_token(y_text(p)),
    ensures
        split_ws("PART "@ + sch_record(p)) == seq!["PART"@, p.0, x_text(p), y_text(p), "0"@, "0"@],
{
    reveal_strlit("PART ");
    reveal_strlit("PART");
    reveal_strlit(" ");
    reveal_strlit(" 0 0");
    reveal_strlit("0");
    let d = p.0;
    let x = x_text(p);
    let y = y_text(p);
    let z = "0"@;
    let sp = seq![' '];
    let w = "PART"@;
    let l = "PART "@ + sch_record(p);
    assert(l =~= w + sp + (d + sp + (x + sp + (y + sp + (z + sp + z)))));
    assert(is_token(w)) by {
        assert forall|i: int| 0 <= i < w.len() implies !is_ws(#[trigger] w[i]) by {}
    }
    assert(is_token(z)) by {
        assert forall|i: int| 0 <= i < z.len() implies !is_ws(#[trigger] z[i]) by {}
    }
    lemma_split_token(z);
    lemma_split_token_space(z, z);
    lemma_split_token_space(y, z + sp + z);
    lemma_split_token_space(x, y + sp + (z + sp + z));
    lemma_split_token_space(d, x + sp + (y + sp + (z + sp + z)));
    lemma_split_token_space(w, d + sp + (x + sp + (y + sp + (z + sp + z))));
    assert(split_ws(z + sp + z) =~= seq![z, z]);
    assert(split_ws(y + sp + (z + sp + z)) =~= seq![y, z, z]);
    assert(split_ws(x + sp + (y + sp + (z + sp + z))) =~= seq![x, y, z, z]);
    assert(split_ws(d + sp + (x + sp + (y + sp + (z + sp + z)))) =~= seq![d, x, y, z, z]);
}

/// The parts while the `*SCH*` records are read: the first `k` as they are
/// read back, the rest as the `*PART*` list gave them.
pub open spec fn mixed_entries(ps: Seq<PartV>, k: int) -> Seq<PartV> {
    Seq::new(ps.len(), |j: int| if j < k { reread_entry(ps[j]) } else { def_entry(ps[j]) })
}

proof fn lemma_mixed_ends(ps: Seq<PartV>)
    ensures
        mixed_entries(ps, 0) == def_entries(ps),
        mixed_entries(ps, ps.len() as int) == reread_entries(ps),
        ps.take(ps.len() as int) == ps,
{
    assert(mixed_entries(ps, 0) =~= def_entries(ps));
    assert(mixed_entries(ps, ps.len() as int) =~= reread_entries(ps));
    assert(ps.take(ps.len() as int) =~= ps);
}

proof fn lemma_mixed_key(ps: Seq<PartV>, k: int, i: int)
    requires
        keys_unique(ps),
        0 <= i < ps.len(),
    ensures
        key_index(mixed_entries(ps, k), ps[i].0) == i,
{
    let m = mixed_entries(ps, k);
    assert forall|j: int| 0 <= j < i implies m[j].0 != ps[i].0 by {
        assert(m[j].0 == ps[j].0);
    }
    lemma_key_index_is(m, ps[i].0, i);
}

/// Reading `PART D X Y 0 0` in `*SCH*` opens part `D` and places it.
proof fn lemma_step_sch_part(st: ParseState, ps: Seq<PartV>, i: int)
    requires
        st.section == Section::Sch,
        0 <= i < ps.len(),
        writable_part(ps[i]),
        keys_unique(ps),
        st.model.parts == mixed_entries(ps, i),
    ensures
        step(st, "PART "@ + sch_record(ps[i])) == st.with_part(Some(ps[i].0)).with_parts(
            st.model.parts.update(i, (ps[i].0, def_entry(ps[i]).1 + xy_entries(ps[i]))),
        ),
{
    lemma_mixed_key(ps, i, i);
    lemma_step_sch_own(st, ps[i], i);
}

/// Reading `PART D X Y 0 0` in `*SCH*` opens part `D` and places it, when
/// `D` stands at `i` with what the `*PART*` list gave it.
proof fn lemma_step_sch_own(st: ParseState, p: PartV, i: int)
    requires
        st.section == Section::Sch,
        writable_part(p),
        0 <= i < st.model.parts.len(),
        key_index(st.model.parts, p.0) == i,
        st.model.parts[i] == def_entry(p),
    ensures
        step(st, "PART "@ + sch_record(p)) == st.with_part(Some(p.0)).with_parts(
            st.model.parts.update(i, (p.0, def_entry(p).1 + xy_entries(p))),
        ),
{
    reveal_strlit("PART ");
    reveal_strlit("TEXT");
    reveal_strlit("OPEN");
    reveal_strlit("LINE");
    reveal_strlit("BORDER");
    reveal_strlit("x");
    reveal_strlit("y");
    reveal_strlit("Device");
    reveal_strlit("Footprint");
    let k = sch_record(p);
    lemma_writable_inert(p);
    lemma_sch_record_facts(p);
    let l = "PART "@ + k;
    assert(l[0] == 'P');
    assert(l.last() == k.last());
    lemma_trim_is(l);
    lemma_no_header(l);
    lemma_not_starts_at(l, "TEXT"@, 0);
    lemma_not_starts_at(l, "OPEN"@, 0);
    lemma_not_starts_at(l, "LINE"@, 0);
    lemma_not_starts_at(l, "BORDER"@, 0);
    assert(l.take(5) =~= "PART "@);
    lemma_record_tokens(p);
    let toks = split_ws(l);
    assert(toks.len() == 6);
    assert(toks[1] == p.0);
    let parts = st.model.parts;
    assert(entry_or(parts, p.0, seq![]) == parts);
    let a = def_entry(p).1;
    let xk = "x"@;
    let yk = "y"@;
    assert(xk != "Device"@ && xk != "Footprint"@ && yk != "Device"@ && yk != "Footprint"@ && xk != yk) by {
        assert(xk.len() != "Device"@.len());
        assert(xk.len() != "Footprint"@.len());
        assert(yk.len() != "Device"@.len());
        assert(yk.len() != "Footprint"@.len());
        assert(xk[0] != yk[0]);
    }
    if is_float_literal(x_text(p)) && is_float_literal(y_text(p)) {
        assert forall|j: int| 0 <= j < a.len() implies a[j].0 != xk by {}
        lemma_key_index_none(a, xk);
        let a1 = a.push((xk, x_text(p)));
        let parts1 = parts.update(i, (p.0, a1));
        assert(set_part_attr(parts, p.0, xk, x_text(p)) == parts1);
        assert forall|j: int| 0 <= j < parts1.len() implies parts1[j].0 == parts[j].0 by {}
        crate::model::lemma_same_keys(parts1, parts, p.0);
        assert forall|j: int| 0 <= j < a1.len() implies a1[j].0 != yk by {
            if j < a.len() {
                assert(a1[j] == a[j]);
            }
        }
        lemma_key_index_none(a1, yk);
        let a2 = a1.push((yk, y_text(p)));
        assert(set_part_attr(parts1, p.0, yk, y_text(p)) == parts1.update(i, (p.0, a2)));
        assert(a2 =~= a + xy_entries(p));
        assert(parts1.update(i, (p.0, a2)) =~= parts.update(i, (p.0, a + xy_entries(p))));
    } else {
        assert(a + xy_entries(p) =~= a);
        assert(parts.update(i, (p.0, a)) =~= parts);
    }
}

/// Reading `"Device" "DEV"` sets the open part's device, which it has
/// already.
proof fn lemma_step_device(st: ParseState, p: PartV, i: int)
    requires
        st.section == Section::Sch,
        writable_part(p),
        st.part == Some(p.0),
        0 <= i < st.model.parts.len(),
        key_index(st.model.parts, p.0) == i,
        st.model.parts[i].1.len() > 0,
        st.model.parts[i].1[0] == ("Device"@, device_text(p)),
    ensures
        step(st, device_line(p)) == st,
{
    reveal_strlit("\"Device\" \"");
    reveal_strlit("\"");
    reveal_strlit("Device");
    reveal_strlit("TEXT");
    reveal_strlit("OPEN");
    reveal_strlit("LINE");
    reveal_strlit("BORDER");
    reveal_strlit("PART ");
    let dev = device_text(p);
    let l = device_line(p);
    let n = dev.len() as int;
    assert(l.len() == 11 + n);
    assert(l[0] == '"');
    assert(l.last() == '"');
    lemma_trim_is(l);
    lemma_no_header(l);
    lemma_split_nonempty(l);
    lemma_not_starts_at(l, "TEXT"@, 0);
    lemma_not_starts_at(l, "OPEN"@, 0);
    lemma_not_starts_at(l, "LINE"@, 0);
    lemma_not_starts_at(l, "BORDER"@, 0);
    lemma_not_starts_at(l, "PART "@, 0);
    assert(l.take(1) =~= "\""@);
    // the closing quote of the key
    let t = l.skip(1);
    assert forall|i: int| 0 <= i < 6 implies #[trigger] other_than('"')(t[i]) by {
        assert(t[i] == l[i + 1]);
    }
    assert(t[6] == l[7]);
    lemma_lead_while_is(t, other_than('"'), 6);
    assert(l.subrange(1, 7) =~= "Device"@);
    let a = st.model.parts[i].1;
    lemma_key_index_is(a, "Device"@, 0);
}

/// Reading a part's two `*SCH*` lines places it.
proof fn lemma_sch_part(st: ParseState, ps: Seq<PartV>, i: int)
    requires
        st.section == Section::Sch,
        0 <= i < ps.len(),
        writable_part(ps[i]),
        keys_unique(ps),
        st.model.parts == mixed_entries(ps, i),
    ensures
        fold_steps(st, sch_lines_of(ps[i])) == st.with_part(Some(ps[i].0)).with_parts(
            mixed_entries(ps, i + 1),
        ),
{
    let p = ps[i];
    let l1 = "PART "@ + sch_record(p);
    let l2 = device_line(p);
    lemma_fold_two(st, l1, l2);
    assert(sch_lines_of(p) == seq![l1, l2]);
    lemma_step_sch_part(st, ps, i);
    let s1 = step(st, l1);
    assert(s1.model.parts =~= mixed_entries(ps, i + 1));
    lemma_mixed_key(ps, i + 1, i);
    reveal_strlit("Device");
    assert(s1.model.parts[i].1[0] == ("Device"@, device_text(p)));
    lemma_step_device(s1, p, i);
}

/// Reading the `*SCH*` lines of the first `k` parts places them.
proof fn lemma_sch_phase(st: ParseState, ps: Seq<PartV>, k: int)
    requires
        st.section == Section::Sch,
        forall|i: int| 0 <= i < ps.len() ==> writable_part(#[trigger] ps[i]),
        keys_unique(ps),
        st.model.parts == mixed_entries(ps, 0),
        0 <= k <= ps.len(),
    ensures
        fold_steps(st, schs_lines(ps.take(k))).section == Section::Sch,
        fold_steps(st, schs_lines(ps.take(k))).points == st.points,
        fold_steps(st, schs_lines(ps.take(k))).model == (SchModel {
            parts: mixed_entries(ps, k),
            nets: st.model.nets,
            lines: st.model.lines,
        }),
    decreases k,
{
    if k == 0 {
        assert(schs_lines(ps.take(0)) =~= Seq::<Text>::empty());
    } else {
        lemma_sch_phase(st, ps, k - 1);
        assert(ps.take(k).drop_last() =~= ps.take(k - 1));
        assert(ps.take(k).last() == ps[k - 1]);
        assert(schs_lines(ps.take(k)) == schs_lines(ps.take(k - 1)) + sch_lines_of(ps[k - 1]));
        lemma_fold_steps_append(st, schs_lines(ps.take(k - 1)), sch_lines_of(ps[k - 1]));
        let s1 = fold_steps(st, schs_lines(ps.take(k - 1)));
        lemma_sch_part(s1, ps, k - 1);
    }
}

proof fn lemma_fold_two(st: ParseState, l1: Text, l2: Text)
    ensures
        fold_steps(st, seq![l1, l2]) == step(step(st, l1), l2),
{
    lemma_fold_steps_push(st, Seq::<Text>::empty(), l1);
    assert(Seq::<Text>::empty().push(l1) =~= seq![l1]);
    lemma_fold_steps_push(st, seq![l1], l2);
    assert(seq![l1].push(l2) =~= seq![l1, l2]);
}

proof fn lemma_fold_three(st: ParseState, l1: Text, l2: Text, l3: Text)
    ensures
        fold_steps(st, seq![l1, l2, l3]) == step(step(step(st, l1), l2), l3),
{
    lemma_fold_two(st, l1, l2);
    lemma_fold_steps_push(st, seq![l1, l2], l3);
    assert(seq![l1, l2].push(l3) =~= seq![l1, l2, l3]);
}

proof fn lemma_clean_concat(x: Seq<Text>, y: Seq<Text>)
    requires
        forall|i: int| 0 <= i < x.len() ==> clean_line(#[trigger] x[i]),
        forall|i: int| 0 <= i < y.len() ==> clean_line(#[trigger] y[i]),
    ensures
        forall|i: int| 0 <= i < (x + y).len() ==> clean_line(#[trigger] (x + y)[i]),
{
    assert forall|i: int| 0 <= i < (x + y).len() implies clean_line(#[trigger] (x + y)[i]) by {
        if i < x.len() {
            assert((x + y)[i] == x[i]);
        } else {
            assert((x + y)[i] == y[i - x.len()]);
        }
    }
}

proof fn lemma_lines_clean_3(s: Seq<Text>, l1: Text, l2: Text, l3: Text)
    requires
        s == seq![l1, l2, l3],
        clean_line(l1),
        clean_line(l2),
        clean_line(l3),
    ensures
        forall|i: int| 0 <= i < s.len() ==> clean_line(#[trigger] s[i]),
{
    assert forall|i: int| 0 <= i < s.len() implies clean_line(#[trigger] s[i]) by {
        if i == 0 {
            assert(s[0] == l1);
        } else if i == 1 {
            assert(s[1] == l2);
        } else {
            assert(s[2] == l3);
        }
    }
}

proof fn lemma_lines_clean_2(s: Seq<Text>, l1: Text, l2: Text)
    requires
        s == seq![l1, l2],
        clean_line(l1),
        clean_line(l2),
    ensures
        forall|i: int| 0 <= i < s.len() ==> clean_line(#[trigger] s[i]),
{
    assert forall|i: int| 0 <= i < s.len() implies clean_line(#[trigger] s[i]) by {
        if i == 0 {
            assert(s[0] == l1);
        } else {
            assert(s[1] == l2);
        }
    }
}

proof fn lemma_literal_lines_clean()
    ensures
        clean_line(seq![]),
        clean_line(header_line()),
        clean_line("*PART*"@),
        clean_line("*NET*"@),
        clean_line("*SCH*"@),
        clean_line("*END*"@),
{
    reveal_strlit("!PADS-POWERLOGIC-V3.0-ANSIC! DESIGN-UNITS-ENGLISH");
    reveal_strlit("*PART*");
    reveal_strlit("*NET*");
    reveal_strlit("*SCH*");
    reveal_strlit("*END*");
    let e: Text = seq![];
    assert(!e.contains('\n'));
}

/// Keeping the parts that all pass keeps them all.
proof fn lemma_filter_all(ps: Seq<PartV>)
    requires
        forall|i: int| 0 <= i < ps.len() ==> keep_part(#[trigger] ps[i]),
    ensures
        ps.filter(keep_part_pred()) == ps,
    decreases ps.len(),
{
    reveal(Seq::filter);
    if ps.len() > 0 {
        let init = ps.drop_last();
        assert forall|i: int| 0 <= i < init.len() implies keep_part(#[trigger] init[i]) by {
            assert(init[i] == ps[i]);
        }
        lemma_filter_all(init);
        assert(keep_part_pred()(ps.last()));
        assert(init.push(ps.last()) =~= ps);
    } else {
        assert(ps.filter(keep_part_pred()) =~= ps);
    }
}

proof fn lemma_all_clean(m: SchModel)
    requires
        forall|i: int| 0 <= i < m.parts.len() ==> inert_part(#[trigger] m.parts[i]),
        forall|i: int| 0 <= i < m.nets.len() ==> writable_net(#[trigger] m.nets[i]),
    ensures
        forall|i: int| 0 <= i < all_lines(m).len() ==> clean_line(#[trigger] all_lines(m)[i]),
{
    let a = seq![header_line(), seq![], "*PART*"@];
    let b = part_bodies(m.parts);
    let c = seq![seq![], "*NET*"@];
    let d = nets_lines(m.nets);
    let e = seq![seq![], "*SCH*"@];
    let f = schs_lines(m.parts);
    let g = seq![seq![], "*END*"@];
    assert(all_lines(m) =~= a + b + c + d + e + f + g);
    lemma_literal_lines_clean();
    lemma_lines_clean_3(a, header_line(), seq![], "*PART*"@);
    lemma_lines_clean_2(c, seq![], "*NET*"@);
    lemma_lines_clean_2(e, seq![], "*SCH*"@);
    lemma_lines_clean_2(g, seq![], "*END*"@);
    lemma_part_bodies_clean(m.parts);
    lemma_nets_lines_clean(m.nets);
    lemma_sch_lines_clean(m.parts);
    assert forall|i: int| 0 <= i < f.len() implies clean_line(#[trigger] f[i]) by {
        assert(quiet_line(f[i]));
    }
    lemma_clean_concat(a, b);
    lemma_clean_concat(a + b, c);
    lemma_clean_concat(a + b + c, d);
    lemma_clean_concat(a + b + c + d, e);
    lemma_clean_concat(a + b + c + d + e, f);
    lemma_clean_concat(a + b + c + d + e + f, g);
}

/// Up to the end of the `*PART*` list.
proof fn lemma_front(m: SchModel)
    requires
        writable(m),
    ensures
        ({
            let s = fold_steps(init_state(), seq![header_line(), seq![], "*PART*"@] + part_bodies(m.parts));
            &&& s.section == Section::Part
            &&& s.points.len() == 0
            &&& s.model == (SchModel { parts: def_entries(m.parts), nets: seq![], lines: seq![] })
        }),
{
    let s0 = init_state();
    let a = seq![header_line(), seq![], "*PART*"@];
    lemma_fold_steps_append(s0, a, part_bodies(m.parts));
    lemma_fold_three(s0, header_line(), seq![], "*PART*"@);
    lemma_step_first(s0);
    lemma_step_blank(s0);
    lemma_header_part();
    lemma_step_header(s0, "*PART*"@, Section::Part);
    let s1 = s0.with_section(Section::Part).with_part(None);
    lemma_parts_phase(s1, m.parts);
    assert(s1.model.parts + def_entries(m.parts) =~= def_entries(m.parts));
}

/// The `*NET*` list.
proof fn lemma_middle(st: ParseState, m: SchModel)
    requires
        writable(m),
        st.points.len() == 0,
        st.model.nets.len() == 0,
    ensures
        ({
            let s = fold_steps(st, seq![seq![], "*NET*"@] + nets_lines(m.nets));
            &&& s.points.len() == 0
            &&& s.model == (SchModel { parts: st.model.parts, nets: m.nets, lines: st.model.lines })
        }),
{
    let c = seq![seq![], "*NET*"@];
    lemma_fold_steps_append(st, c, nets_lines(m.nets));
    lemma_fold_two(st, seq![], "*NET*"@);
    lemma_step_blank(st);
    lemma_header_net();
    lemma_step_header(st, "*NET*"@, Section::Net);
    let s3 = st.with_section(Section::Net).with_part(None);
    assert forall|i: int| 0 <= i < m.nets.len() implies (#[trigger] m.nets[i].1).no_duplicates() by {}
    lemma_nets_phase(s3, m.nets);
}

/// The `*SCH*` list and `*END*`.
proof fn lemma_back(st: ParseState, m: SchModel)
    requires
        writable(m),
        st.points.len() == 0,
        st.model.parts == def_entries(m.parts),
    ensures
        ({
            let s = fold_steps(st, seq![seq![], "*SCH*"@] + schs_lines(m.parts) + seq![seq![], "*END*"@]);
            &&& s.points.len() == 0
            &&& s.model == (SchModel {
                parts: reread_entries(m.parts),
                nets: st.model.nets,
                lines: st.model.lines,
            })
        }),
{
    let e = seq![seq![], "*SCH*"@];
    let f = schs_lines(m.parts);
    let g = seq![seq![], "*END*"@];
    lemma_fold_steps_append(st, e + f, g);
    lemma_fold_steps_append(st, e, f);
    lemma_fold_two(st, seq![], "*SCH*"@);
    lemma_step_blank(st);
    lemma_header_sch();
    lemma_step_header(st, "*SCH*"@, Section::Sch);
    let s5 = st.with_section(Section::Sch).with_part(None);
    lemma_mixed_ends(m.parts);
    lemma_sch_phase(s5, m.parts, m.parts.len() as int);
    let s6 = fold_steps(s5, f);
    lemma_fold_two(s6, seq![], "*END*"@);
    lemma_step_blank(s6);
    lemma_header_end();
    lemma_step_header(s6, "*END*"@, Section::Ignore);
}

/// The reader's state after all written lines.
proof fn lemma_fold_all(m: SchModel)
    requires
        writable(m),
    ensures
        fold_steps(init_state(), all_lines(m)).points.len() == 0,
        fold_steps(init_state(), all_lines(m)).model == (SchModel {
            parts: reread_entries(m.parts),
            nets: m.nets,
            lines: seq![],
        }),
{
    let s0 = init_state();
    let ab = seq![header_line(), seq![], "*PART*"@] + part_bodies(m.parts);
    let cd = seq![seq![], "*NET*"@] + nets_lines(m.nets);
    let efg = seq![seq![], "*SCH*"@] + schs_lines(m.parts) + seq![seq![], "*END*"@];
    assert(all_lines(m) =~= ab + cd + efg);
    lemma_fold_steps_append(s0, ab + cd, efg);
    lemma_fold_steps_append(s0, ab, cd);
    lemma_front(m);
    let s2 = fold_steps(s0, ab);
    lemma_middle(s2, m);
    lemma_back(fold_steps(s2, cd), m);
}

/// Writing a schematic and reading the text back gives every part with
/// its device, its footprint and its position (when both coordinates are
/// float literals), every net with its pins in the same order, and no
/// segments; provided every name and value written is a single token that
/// the reader cannot take for something else (see [`writable`]).
pub proof fn lemma_format_then_parse(m: SchModel)
    requires
        writable(m),
    ensures
        parse_model(format_model(m)) == reread_model(m),
{
    lemma_format_lines(m);
    let all = all_lines(m);
    assert forall|i: int| 0 <= i < m.parts.len() implies inert_part(#[trigger] m.parts[i]) by {
        lemma_writable_inert(m.parts[i]);
    }
    lemma_all_clean(m);
    let s0 = init_state();
    lemma_run_lines(s0, all, seq![]);
    assert(lines_text(all) + Seq::<char>::empty() =~= lines_text(all));
    let sf = fold_steps(s0, all);
    lemma_step_blank(sf);
    assert(run_text(sf, Seq::<char>::empty()) == step(sf, seq![]));
    lemma_fold_all(m);
    lemma_flush_empty(sf);
    let rs = reread_entries(m.parts);
    reveal_strlit("Device");
    assert forall|i: int| 0 <= i < rs.len() implies keep_part(#[trigger] rs[i]) by {
        let p = m.parts[i];
        assert(rs[i] == reread_entry(p));
        assert(rs[i].1[0].0 == "Device"@);
        lemma_key_index(rs[i].1, "Device"@);
        if key_index(rs[i].1, "Device"@) < 0 {
            assert(rs[i].1[0].0 != "Device"@);
        }
    }
    lemma_filter_all(rs);
}

/// A line of the `*PART*` or `*SCH*` section that is read as one line and is
/// no section header leaves the section, the open net, the polyline, the
/// nets and the segments as they were.
pub proof fn lemma_step_quiet(st: ParseState, l: Text)
    requires
        st.section == Section::Part || st.section == Section::Sch,
        quiet_line(l),
    ensures
        step(st, l).section == st.section,
        step(st, l).net == st.net,
        step(st, l).points == st.points,
        step(st, l).model.nets == st.model.nets,
        step(st, l).model.lines == st.model.lines,
{
    let t = trim(l);
    if t.len() > 0 {
        reveal_strlit("*");
        if t[0] == '*' {
            assert(t.take(1) =~= "*"@);
        }
        lemma_no_header(t);
    }
}

proof fn lemma_fold_quiet(st: ParseState, ls: Seq<Text>)
    requires
        st.section == Section::Part || st.section == Section::Sch,
        forall|i: int| 0 <= i < ls.len() ==> quiet_line(#[trigger] ls[i]),
    ensures
        fold_steps(st, ls).section == st.section,
        fold_steps(st, ls).net == st.net,
        fold_steps(st, ls).points == st.points,
        fold_steps(st, ls).model.nets == st.model.nets,
        fold_steps(st, ls).model.lines == st.model.lines,
    decreases ls.len(),
{
    if ls.len() > 0 {
        let tail = ls.drop_first();
        assert(quiet_line(ls[0]));
        lemma_step_quiet(st, ls[0]);
        assert forall|i: int| 0 <= i < tail.len() implies quiet_line(#[trigger] tail[i]) by {
            assert(tail[i] == ls[i + 1]);
        }
        lemma_fold_quiet(step(st, ls[0]), tail);
    }
}

/// Writing a schematic and reading the text back gives every net with its
/// pins in the same order, and no segments, whatever names and values its
/// parts hold, as long as no line written for a part can be read as more
/// than one line or as a section header (see [`inert_part`]) and the nets
/// are written as single tokens (see [`writable_nets`]).
#[verifier::spinoff_prover]
#[verifier::rlimit(60)]
pub proof fn lemma_format_then_parse_nets(m: SchModel)
    requires
        writable_nets(m.nets),
        forall|i: int| 0 <= i < m.parts.len() ==> inert_part(#[trigger] m.parts[i]),
    ensures
        parse_model(format_model(m)).nets == m.nets,
        parse_model(format_model(m)).lines == Seq::<SegV>::empty(),
{
    lemma_format_lines(m);
    let all = all_lines(m);
    lemma_all_clean(m);
    let s0 = init_state();
    lemma_run_lines(s0, all, seq![]);
    assert(lines_text(all) + Seq::<char>::empty() =~= lines_text(all));
    let sf = fold_steps(s0, all);
    lemma_step_blank(sf);
    assert(run_text(sf, Seq::<char>::empty()) == step(sf, seq![]));
    let a = seq![header_line(), seq![], "*PART*"@];
    let b = part_bodies(m.parts);
    let c = seq![seq![], "*NET*"@];
    let d = nets_lines(m.nets);
    let e = seq![seq![], "*SCH*"@];
    let f = schs_lines(m.parts);
    let g = seq![seq![], "*END*"@];
    assert(all =~= a + b + c + d + e + f + g);
    lemma_fold_steps_append(s0, a + b + c + d + e + f, g);
    lemma_fold_steps_append(s0, a + b + c + d + e, f);
    lemma_fold_steps_append(s0, a + b + c + d, e);
    lemma_fold_steps_append(s0, a + b + c, d);
    lemma_fold_steps_append(s0, a + b, c);
    lemma_fold_steps_append(s0, a, b);
    // header and `*PART*`
    lemma_fold_three(s0, header_line(), seq![], "*PART*"@);
    lemma_step_first(s0);
    lemma_step_blank(s0);
    lemma_header_part();
    lemma_step_header(s0, "*PART*"@, Section::Part);
    let s1 = s0.with_section(Section::Part).with_part(None);
    assert(fold_steps(s0, a) == s1);
    // the `*PART*` list
    assert forall|i: int| 0 <= i < b.len() implies quiet_line(#[trigger] b[i]) by {
        assert(b[i] == part_body(m.parts[i]));
        assert(inert_part(m.parts[i]));
    }
    lemma_fold_quiet(s1, b);
    let s2 = fold_steps(s1, b);
    // `*NET*` and the nets
    lemma_fold_two(s2, seq![], "*NET*"@);
    lemma_step_blank(s2);
    lemma_header_net();
    lemma_step_header(s2, "*NET*"@, Section::Net);
    let s3 = s2.with_section(Section::Net).with_part(None);
    assert(s3.model.nets.len() == 0);
    lemma_nets_phase(s3, m.nets);
    let s4 = fold_steps(s3, d);
    // `*SCH*` and the records
    lemma_fold_two(s4, seq![], "*SCH*"@);
    lemma_step_blank(s4);
    lemma_header_sch();
    lemma_step_header(s4, "*SCH*"@, Section::Sch);
    let s5 = s4.with_section(Section::Sch).with_part(None);
    lemma_sch_lines_clean(m.parts);
    lemma_fold_quiet(s5, f);
    let s6 = fold_steps(s5, f);
    // `*END*`
    lemma_fold_two(s6, seq![], "*END*"@);
    lemma_step_blank(s6);
    lemma_header_end();
    lemma_step_header(s6, "*END*"@, Section::Ignore);
    lemma_flush_empty(sf);
}

/// Writing a schematic whose parts' written texts hold neither `*` nor a
/// line feed, with nets that read back, and reading it back gives parts
/// whose names and attributes hold neither either.
#[verifier::spinoff_prover]
#[verifier::rlimit(60)]
pub proof fn lemma_format_then_parse_plain(m: SchModel)
    requires
        writable_nets(m.nets),
        forall|i: int| 0 <= i < m.parts.len() ==> plain_part(#[trigger] m.parts[i]),
    ensures
        parts_plain(parse_model(format_model(m)).parts),
{
    assert forall|i: int| 0 <= i < m.parts.len() implies inert_part(#[trigger] m.parts[i]) by {
        lemma_plain_inert(m.parts[i]);
    }
    lemma_format_lines(m);
    let all = all_lines(m);
    lemma_all_clean(m);
    let s0 = init_state();
    lemma_run_lines(s0, all, seq![]);
    assert(lines_text(all) + Seq::<char>::empty() =~= lines_text(all));
    let sf = fold_steps(s0, all);
    lemma_step_blank(sf);
    assert(run_text(sf, Seq::<char>::empty()) == step(sf, seq![]));
    let a = seq![header_line(), seq![], "*PART*"@];
    let b = part_bodies(m.parts);
    let c = seq![seq![], "*NET*"@];
    let d = nets_lines(m.nets);
    let e = seq![seq![], "*SCH*"@];
    let f = schs_lines(m.parts);
    let g = seq![seq![], "*END*"@];
    assert(all =~= a + b + c + d + e + f + g);
    lemma_fold_steps_append(s0, a + b + c + d + e + f, g);
    lemma_fold_steps_append(s0, a + b + c + d + e, f);
    lemma_fold_steps_append(s0, a + b + c + d, e);
    lemma_fold_steps_append(s0, a + b + c, d);
    lemma_fold_steps_append(s0, a + b, c);
    lemma_fold_steps_append(s0, a, b);
    lemma_fold_three(s0, header_line(), seq![], "*PART*"@);
    lemma_step_first(s0);
    lemma_step_blank(s0);
    lemma_header_part();
    lemma_step_header(s0, "*PART*"@, Section::Part);
    let s1 = s0.with_section(Section::Part).with_part(None);
    assert(fold_steps(s0, a) == s1);
    assert(parts_plain(s1.model.parts));
    assert forall|i: int| 0 <= i < b.len() implies plain(#[trigger] b[i]) by {
        assert(b[i] == part_body(m.parts[i]));
        lemma_plain_part_body(m.parts[i]);
    }
    lemma_fold_plain(s1, b);
    assert forall|i: int| 0 <= i < b.len() implies quiet_line(#[trigger] b[i]) by {
        lemma_plain_quiet(b[i]);
    }
    lemma_fold_quiet(s1, b);
    let s2 = fold_steps(s1, b);
    lemma_fold_two(s2, seq![], "*NET*"@);
    lemma_step_blank(s2);
    lemma_header_net();
    lemma_step_header(s2, "*NET*"@, Section::Net);
    let s3 = s2.with_section(Section::Net).with_part(None);
    lemma_nets_phase(s3, m.nets);
    let s4 = fold_steps(s3, d);
    lemma_fold_two(s4, seq![], "*SCH*"@);
    lemma_step_blank(s4);
    lemma_header_sch();
    lemma_step_header(s4, "*SCH*"@, Section::Sch);
    let s5 = s4.with_section(Section::Sch).with_part(None);
    lemma_plain_sch_lines(m.parts);
    lemma_fold_plain(s5, f);
    let s6 = fold_steps(s5, f);
    lemma_fold_two(s6, seq![], "*END*"@);
    lemma_step_blank(s6);
    lemma_header_end();
    lemma_step_header(s6, "*END*"@, Section::Ignore);
    let s7 = step(step(s6, seq![]), "*END*"@);
    assert(sf == s7);
    assert(parts_plain(sf.model.parts));
    let fl = flush(sf);
    assert(fl.model.parts == sf.model.parts);
    let q = |p: PartV| plain(p.0) && attrs_plain(p.1);
    assert forall|i: int| 0 <= i < fl.model.parts.len() implies q(#[trigger] fl.model.parts[i]) by {}
    lemma_filter_keeps(fl.model.parts, keep_part_pred(), q);
    let kept = fl.model.parts.filter(keep_part_pred());
    assert forall|i: int| 0 <= i < kept.len() implies plain((#[trigger] kept[i]).0) && attrs_plain(kept[i].1) by {
        assert(q(kept[i]));
    }
}

proof fn lemma_plain_part_body(p: PartV)
    requires
        plain_part(p),
    ensures
        plain(part_body(p)),
{
    lemma_plain_inert(p);
    reveal_strlit(" ");
    reveal_strlit("@");
    assert(plain(" "@)) by {
        assert(!" "@.contains('*') && !" "@.contains('\n'));
    }
    assert(plain("@"@)) by {
        assert(!"@"@.contains('*') && !"@"@.contains('\n'));
    }
    lemma_plain_concat(p.0, " "@);
    lemma_plain_concat(p.0 + " "@, device_text(p));
    lemma_plain_concat(p.0 + " "@ + device_text(p), "@"@);
    lemma_plain_concat(p.0 + " "@ + device_text(p) + "@"@, footprint_text(p));
}

/// The `*SCH*` lines of plain parts are plain.
proof fn lemma_plain_sch_lines(ps: Seq<PartV>)
    requires
        forall|i: int| 0 <= i < ps.len() ==> plain_part(#[trigger] ps[i]),
    ensures
        forall|i: int| 0 <= i < schs_lines(ps).len() ==> plain(#[trigger] schs_lines(ps)[i]),
    decreases ps.len(),
{
    if ps.len() > 0 {
        let init = ps.drop_last();
        assert forall|i: int| 0 <= i < init.len() implies plain_part(#[trigger] init[i]) by {
            assert(init[i] == ps[i]);
        }
        lemma_plain_sch_lines(init);
        let p = ps.last();
        assert(plain_part(p));
        reveal_strlit("PART ");
        reveal_strlit(" ");
        reveal_strlit(" 0 0");
        reveal_strlit("\"Device\" \"");
        reveal_strlit("\"");
        assert(plain("PART "@)) by {
            assert(!"PART "@.contains('*') && !"PART "@.contains('\n'));
        }
        assert(plain(" "@)) by {
            assert(!" "@.contains('*') && !" "@.contains('\n'));
        }
        assert(plain(" 0 0"@)) by {
            assert(!" 0 0"@.contains('*') && !" 0 0"@.contains('\n'));
        }
        assert(plain("\"Device\" \""@)) by {
            assert(!"\"Device\" \""@.contains('*') && !"\"Device\" \""@.contains('\n'));
        }
        assert(plain("\""@)) by {
            assert(!"\""@.contains('*') && !"\""@.contains('\n'));
        }
        lemma_plain_concat(p.0, " "@);
        lemma_plain_concat(p.0 + " "@, x_text(p));
        lemma_plain_concat(p.0 + " "@ + x_text(p), " "@);
        lemma_plain_concat(p.0 + " "@ + x_text(p) + " "@, y_text(p));
        lemma_plain_concat(p.0 + " "@ + x_text(p) + " "@ + y_text(p), " 0 0"@);
        lemma_plain_concat("PART "@, sch_record(p));
        lemma_plain_concat("\"Device\" \""@, device_text(p));
        lemma_plain_concat("\"Device\" \""@ + device_text(p), "\""@);
        let l1 = "PART "@ + sch_record(p);
        let l2 = device_line(p);
        let a = schs_lines(init);
        assert forall|i: int| 0 <= i < schs_lines(ps).len() implies plain(#[trigger] schs_lines(ps)[i]) by {
            if i < a.len() {
                assert(schs_lines(ps)[i] == a[i]);
            } else if i == a.len() {
                assert(schs_lines(ps)[i] == l1);
            } else {
                assert(schs_lines(ps)[i] == l2);
            }
        }
    }
}

/// A part that cannot change what is read of another part: a designator
/// that reads back, coordinates that are tokens, and a device and a
/// footprint without line feed.
pub open spec fn harmless_part(p: PartV) -> bool {
    &&& writable_designator(p.0)
    &&& is_token(x_text(p))
    &&& is_token(y_text(p))
    &&& !device_text(p).contains('\n')
    &&& !footprint_text(p).contains('\n')
}

/// `b` holds under every name but `q` what `a` holds.
pub open spec fn same_except(a: Seq<PartV>, b: Seq<PartV>, q: Text) -> bool {
    forall|k: Text| k != q ==> #[trigger] lookup(b, k) == lookup(a, k)
}

proof fn lemma_push_frame(ps: Seq<PartV>, q: Text, x: AttrsV)
    requires
        !has_key(ps, q),
    ensures
        same_except(ps, ps.push((q, x)), q),
        lookup(ps.push((q, x)), q) == Some(x),
{
    let r = ps.push((q, x));
    assert(r.drop_last() =~= ps);
    lemma_key_index(ps, q);
    assert forall|k: Text| k != q implies #[trigger] lookup(r, k) == lookup(ps, k) by {
        lemma_key_index(ps, k);
        if key_index(ps, k) >= 0 {
            assert(r[key_index(ps, k)] == ps[key_index(ps, k)]);
        }
    }
}

proof fn lemma_entry_or_frame(ps: Seq<PartV>, q: Text)
    ensures
        same_except(ps, entry_or(ps, q, seq![]), q),
{
    lemma_key_index(ps, q);
    if key_index(ps, q) < 0 {
        lemma_push_frame(ps, q, seq![]);
    }
}

proof fn lemma_update_frame(ps: Seq<PartV>, j: int, q: Text, x: AttrsV)
    requires
        0 <= j < ps.len(),
        ps[j].0 == q,
    ensures
        same_except(ps, ps.update(j, (q, x)), q),
{
    let r = ps.update(j, (q, x));
    assert forall|k: Text| k != q implies #[trigger] lookup(r, k) == lookup(ps, k) by {
        assert forall|t: int| 0 <= t < r.len() implies r[t].0 == ps[t].0 by {}
        lemma_same_keys(r, ps, k);
        lemma_key_index(ps, k);
        let t = key_index(ps, k);
        if t >= 0 {
            assert(t != j);
            assert(r[t] == ps[t]);
        }
    }
}

proof fn lemma_set_attr_frame(ps: Seq<PartV>, q: Text, key: Text, v: Text)
    ensures
        same_except(ps, set_part_attr(ps, q, key, v), q),
{
    lemma_key_index(ps, q);
    let i = key_index(ps, q);
    if i >= 0 {
        lemma_update_frame(ps, i, q, assoc_insert(ps[i].1, key, v));
    }
}

proof fn lemma_same_except_trans(a: Seq<PartV>, b: Seq<PartV>, c: Seq<PartV>, q: Text)
    requires
        same_except(a, b, q),
        same_except(b, c, q),
    ensures
        same_except(a, c, q),
{
    assert forall|k: Text| k != q implies #[trigger] lookup(c, k) == lookup(a, k) by {
        assert(lookup(c, k) == lookup(b, k));
    }
}

/// A harmless part's `*PART*` line changes nothing read under another name.
proof fn lemma_step_harmless_line(st: ParseState, q: PartV)
    requires
        st.section == Section::Part,
        harmless_part(q),
    ensures
        step(st, part_body(q)).section == Section::Part,
        same_except(st.model.parts, step(st, part_body(q)).model.parts, q.0),
{
    reveal_strlit(" ");
    reveal_strlit("@");
    reveal_strlit("PART ");
    reveal_strlit("PART");
    reveal_strlit("\"");
    let d = q.0;
    let sp = if footprint_text(q).len() > 0 {
        device_text(q) + seq!['@'] + footprint_text(q)
    } else {
        device_text(q)
    };
    let l = part_body(q);
    assert(l =~= d + seq![' '] + sp);
    let n = d.len() as int;
    lemma_alpha_not_special(d[0]);
    assert(!is_ws(l[0]));
    lemma_lead_while_is(l, ws_pred(), 0);
    assert(l.skip(0) =~= l);
    crate::text::lemma_trail_while(l, ws_pred());
    let b = crate::text::trail_while(l, ws_pred()) as int;
    if l.len() - b < n {
        assert(ws_pred()(l[n - 1]));
        assert(l[n - 1] == d[n - 1]);
    }
    let t = trim(l);
    assert(t =~= l.take(l.len() - b));
    assert(t.len() >= n);
    assert forall|j: int| 0 <= j < n implies #[trigger] non_ws_pred()(t[j]) by {
        assert(t[j] == d[j]);
    }
    assert(is_ws(' '));
    if n < t.len() {
        assert(t[n] == ' ');
    }
    lemma_lead_while_is(t, non_ws_pred(), n);
    assert(t[0] == d[0]);
    assert(t.take(n) =~= d);
    let toks = split_ws(t);
    assert(toks == seq![t.take(n)] + split_ws(t.skip(n)));
    assert(toks[0] == d);
    lemma_no_header(t);
    if starts_with(t, "PART "@) {
        assert(t.take(5) =~= "PART "@);
        if n >= 5 {
            assert(t.take(5)[4] == t[4]);
            assert(t[4] == d[4]);
        } else if n < 4 {
            assert(t.take(5)[n] == t[n]);
        } else {
            assert forall|j: int| 0 <= j < 4 implies d[j] == "PART"@[j] by {
                assert(t.take(5)[j] == t[j]);
                assert(t[j] == d[j]);
            }
            assert(d =~= "PART"@);
        }
    }
    lemma_not_starts_at(t, "\""@, 0);
    assert(!is_coord(toks));
    let ps = st.model.parts;
    lemma_entry_or_frame(ps, d);
    let p1 = entry_or(ps, d, seq![]);
    if toks.len() >= 2 {
        lemma_set_attr_frame(p1, d, "Device"@, device_of(toks[1]));
        let p2 = set_part_attr(p1, d, "Device"@, device_of(toks[1]));
        lemma_same_except_trans(ps, p1, p2, d);
        match footprint_of(toks[1]) {
            Some(fp) => {
                lemma_set_attr_frame(p2, d, "Footprint"@, fp);
                lemma_same_except_trans(ps, p2, set_part_attr(p2, d, "Footprint"@, fp), d);
            },
            None => {},
        }
    }
}

/// A harmless part's two `*SCH*` lines change nothing read under another
/// name.
proof fn lemma_sch_other_pair(st: ParseState, q: PartV)
    requires
        st.section == Section::Sch,
        harmless_part(q),
    ensures
        fold_steps(st, sch_lines_of(q)).section == Section::Sch,
        same_except(st.model.parts, fold_steps(st, sch_lines_of(q)).model.parts, q.0),
{
    reveal_strlit("PART ");
    reveal_strlit("TEXT");
    reveal_strlit("OPEN");
    reveal_strlit("LINE");
    reveal_strlit("BORDER");
    reveal_strlit("x");
    reveal_strlit("y");
    reveal_strlit("\"Device\" \"");
    reveal_strlit("\"");
    let d = q.0;
    lemma_token_no_nl(d);
    lemma_token_no_nl(x_text(q));
    lemma_token_no_nl(y_text(q));
    lemma_sch_record_facts(q);
    let l1 = "PART "@ + sch_record(q);
    let l2 = device_line(q);
    lemma_fold_two(st, l1, l2);
    assert(sch_lines_of(q) == seq![l1, l2]);
    // the record
    assert(l1[0] == 'P');
    assert(l1.last() == sch_record(q).last());
    lemma_trim_is(l1);
    lemma_no_header(l1);
    lemma_not_starts_at(l1, "TEXT"@, 0);
    lemma_not_starts_at(l1, "OPEN"@, 0);
    lemma_not_starts_at(l1, "LINE"@, 0);
    lemma_not_starts_at(l1, "BORDER"@, 0);
    assert(l1.take(5) =~= "PART "@);
    lemma_record_tokens(q);
    let toks = split_ws(l1);
    assert(toks.len() == 6);
    assert(toks[1] == d);
    let ps = st.model.parts;
    lemma_entry_or_frame(ps, d);
    let p1 = entry_or(ps, d, seq![]);
    lemma_set_attr_frame(p1, d, "x"@, toks[2]);
    let p2 = set_part_attr(p1, d, "x"@, toks[2]);
    lemma_set_attr_frame(p2, d, "y"@, toks[3]);
    lemma_same_except_trans(ps, p1, p2, d);
    lemma_same_except_trans(ps, p2, set_part_attr(p2, d, "y"@, toks[3]), d);
    let s1 = step(st, l1);
    assert(s1.part == Some(d));
    assert(s1.section == Section::Sch);
    assert(same_except(ps, s1.model.parts, d));
    // the device line
    let n = device_text(q).len() as int;
    assert(l2.len() == 11 + n);
    assert(l2[0] == '"');
    assert(l2.last() == '"');
    lemma_trim_is(l2);
    lemma_no_header(l2);
    lemma_split_nonempty(l2);
    lemma_not_starts_at(l2, "TEXT"@, 0);
    lemma_not_starts_at(l2, "OPEN"@, 0);
    lemma_not_starts_at(l2, "LINE"@, 0);
    lemma_not_starts_at(l2, "BORDER"@, 0);
    lemma_not_starts_at(l2, "PART "@, 0);
    assert(l2.take(1) =~= "\""@);
    let s2 = step(s1, l2);
    assert(s2 == quoted_attr(s1, d, l2));
    let qi: int = 1 + lead_while(l2.skip(1), other_than('"')) as int;
    if qi < l2.len() {
        let key = l2.subrange(1, qi);
        let value = trim_quotes(trim(l2.skip(qi + 1)));
        lemma_set_attr_frame(s1.model.parts, d, key, value);
    }
    lemma_same_except_trans(ps, s1.model.parts, s2.model.parts, d);
}

/// A writable part's two `*SCH*` lines place it, and change nothing read
/// under another name.
proof fn lemma_sch_own_pair(st: ParseState, p: PartV)
    requires
        st.section == Section::Sch,
        writable_part(p),
        lookup(st.model.parts, p.0) == Some(def_entry(p).1),
    ensures
        fold_steps(st, sch_lines_of(p)).section == Section::Sch,
        same_except(st.model.parts, fold_steps(st, sch_lines_of(p)).model.parts, p.0),
        lookup(fold_steps(st, sch_lines_of(p)).model.parts, p.0) == Some(def_entry(p).1 + xy_entries(p)),
{
    let ps = st.model.parts;
    lemma_key_index(ps, p.0);
    let j = key_index(ps, p.0);
    assert(ps[j] == def_entry(p));
    let l1 = "PART "@ + sch_record(p);
    let l2 = device_line(p);
    lemma_fold_two(st, l1, l2);
    assert(sch_lines_of(p) == seq![l1, l2]);
    lemma_step_sch_own(st, p, j);
    let s1 = step(st, l1);
    let x = def_entry(p).1 + xy_entries(p);
    assert(s1.model.parts == ps.update(j, (p.0, x)));
    lemma_update_frame(ps, j, p.0, x);
    assert forall|t: int| 0 <= t < s1.model.parts.len() implies s1.model.parts[t].0 == ps[t].0 by {}
    lemma_same_keys(s1.model.parts, ps, p.0);
    reveal_strlit("Device");
    assert(s1.model.parts[j].1[0] == ("Device"@, device_text(p)));
    lemma_step_device(s1, p, j);
}

/// Reading the `*PART*` lines of the first `k` of harmless parts `ps`: the
/// writable part `ps[i]`, once read, has what [`def_entry`] gives; the
/// names of the parts not yet read are not there; and a name that no part
/// has holds what it held.
proof fn lemma_parts_frame(st: ParseState, ps: Seq<PartV>, i: int, z: Text, k: int)
    requires
        st.section == Section::Part,
        keys_unique(ps),
        0 <= i < ps.len(),
        writable_part(ps[i]),
        forall|j: int| 0 <= j < ps.len() ==> harmless_part(#[trigger] ps[j]),
        forall|j: int| 0 <= j < ps.len() ==> ps[j].0 != z,
        0 <= k <= ps.len(),
        forall|t: int| 0 <= t < ps.len() ==> !has_key(st.model.parts, #[trigger] ps[t].0),
    ensures
        fold_steps(st, part_bodies(ps.take(k))).section == Section::Part,
        forall|t: int| k <= t < ps.len() ==> !has_key(fold_steps(st, part_bodies(ps.take(k))).model.parts, #[trigger] ps[t].0),
        i < k ==> lookup(fold_steps(st, part_bodies(ps.take(k))).model.parts, ps[i].0) == Some(def_entry(ps[i]).1),
        lookup(fold_steps(st, part_bodies(ps.take(k))).model.parts, z) == lookup(st.model.parts, z),
    decreases k,
{
    if k == 0 {
        assert(part_bodies(ps.take(0)) =~= Seq::<Text>::empty());
    } else {
        lemma_parts_frame(st, ps, i, z, k - 1);
        assert(part_bodies(ps.take(k)) =~= part_bodies(ps.take(k - 1)).push(part_body(ps[k - 1])));
        lemma_fold_steps_push(st, part_bodies(ps.take(k - 1)), part_body(ps[k - 1]));
        let s1 = fold_steps(st, part_bodies(ps.take(k - 1)));
        let q = ps[k - 1];
        if k - 1 == i {
            lemma_step_part_line(s1, q);
            lemma_push_frame(s1.model.parts, q.0, def_entry(q).1);
            assert(def_entry(q).0 == q.0);
        } else {
            lemma_step_harmless_line(s1, q);
        }
        let s2 = step(s1, part_body(q));
        assert(same_except(s1.model.parts, s2.model.parts, q.0));
        assert forall|t: int| k <= t < ps.len() implies !has_key(s2.model.parts, #[trigger] ps[t].0) by {
            assert(ps[t].0 != q.0);
            assert(lookup(s2.model.parts, ps[t].0) == lookup(s1.model.parts, ps[t].0));
        }
        if i < k - 1 {
            assert(ps[i].0 != q.0);
            assert(lookup(s2.model.parts, ps[i].0) == lookup(s1.model.parts, ps[i].0));
        }
        assert(lookup(s2.model.parts, z) == lookup(s1.model.parts, z));
    }
}

/// Reading the `*SCH*` lines of the first `k` of harmless parts `ps`.
proof fn lemma_sch_frame(st: ParseState, ps: Seq<PartV>, i: int, z: Text, k: int)
    requires
        st.section == Section::Sch,
        keys_unique(ps),
        0 <= i < ps.len(),
        writable_part(ps[i]),
        forall|j: int| 0 <= j < ps.len() ==> harmless_part(#[trigger] ps[j]),
        forall|j: int| 0 <= j < ps.len() ==> ps[j].0 != z,
        0 <= k <= ps.len(),
        lookup(st.model.parts, ps[i].0) == Some(def_entry(ps[i]).1),
    ensures
        fold_steps(st, schs_lines(ps.take(k))).section == Section::Sch,
        lookup(fold_steps(st, schs_lines(ps.take(k))).model.parts, ps[i].0) == Some(
            if i < k {
                def_entry(ps[i]).1 + xy_entries(ps[i])
            } else {
                def_entry(ps[i]).1
            },
        ),
        lookup(fold_steps(st, schs_lines(ps.take(k))).model.parts, z) == lookup(st.model.parts, z),
    decreases k,
{
    if k == 0 {
        assert(schs_lines(ps.take(0)) =~= Seq::<Text>::empty());
    } else {
        lemma_sch_frame(st, ps, i, z, k - 1);
        assert(ps.take(k).drop_last() =~= ps.take(k - 1));
        assert(ps.take(k).last() == ps[k - 1]);
        assert(schs_lines(ps.take(k)) == schs_lines(ps.take(k - 1)) + sch_lines_of(ps[k - 1]));
        lemma_fold_steps_append(st, schs_lines(ps.take(k - 1)), sch_lines_of(ps[k - 1]));
        let s1 = fold_steps(st, schs_lines(ps.take(k - 1)));
        let q = ps[k - 1];
        if k - 1 == i {
            lemma_sch_own_pair(s1, q);
        } else {
            lemma_sch_other_pair(s1, q);
            assert(ps[i].0 != q.0);
        }
        let s2 = fold_steps(s1, sch_lines_of(q));
        assert(lookup(s2.model.parts, z) == lookup(s1.model.parts, z));
    }
}

/// Keeping the parts that the reader keeps finds a kept entry as before.
proof fn lemma_filter_lookup(ps: Seq<PartV>, k: Text, a: AttrsV)
    requires
        lookup(ps, k) == Some(a),
        keep_part((k, a)),
    ensures
        lookup(ps.filter(keep_part_pred()), k) == Some(a),
    decreases ps.len(),
{
    reveal(Seq::filter);
    let pred = keep_part_pred();
    let init = ps.drop_last();
    let last = ps.last();
    lemma_key_index(ps, k);
    lemma_key_index(init, k);
    let f = init.filter(pred);
    if key_index(init, k) >= 0 {
        assert(init[key_index(init, k)] == ps[key_index(init, k)]);
        lemma_filter_lookup(init, k, a);
        lemma_key_index(f, k);
        if pred(last) {
            assert(ps.filter(pred) == f.push(last));
            assert(f.push(last).drop_last() =~= f);
            assert(f.push(last)[key_index(f, k)] == f[key_index(f, k)]);
        } else {
            assert(ps.filter(pred) == f);
        }
    } else {
        assert(last == (k, a));
        let not_k = |e: PartV| e.0 != k;
        assert forall|j: int| 0 <= j < init.len() implies not_k(#[trigger] init[j]) by {}
        lemma_filter_keeps(init, pred, not_k);
        assert forall|j: int| 0 <= j < f.len() implies f[j].0 != k by {
            assert(not_k(f[j]));
        }
        lemma_key_index_none(f, k);
        assert(pred(last));
        assert(ps.filter(pred) == f.push(last));
        assert(f.push(last).drop_last() =~= f);
    }
}

/// Keeping the parts that the reader keeps adds no name.
proof fn lemma_filter_absent(ps: Seq<PartV>, k: Text)
    requires
        !has_key(ps, k),
    ensures
        !has_key(ps.filter(keep_part_pred()), k),
{
    lemma_key_index(ps, k);
    let not_k = |e: PartV| e.0 != k;
    assert forall|j: int| 0 <= j < ps.len() implies not_k(#[trigger] ps[j]) by {}
    lemma_filter_keeps(ps, keep_part_pred(), not_k);
    let f = ps.filter(keep_part_pred());
    assert forall|j: int| 0 <= j < f.len() implies f[j].0 != k by {
        assert(not_k(f[j]));
    }
    lemma_key_index_none(f, k);
}

/// A harmless part writes only lines that read as one line each and none
/// as a section header.
pub proof fn lemma_harmless_inert(p: PartV)
    requires
        harmless_part(p),
    ensures
        inert_part(p),
{
    reveal_strlit(" ");
    reveal_strlit("@");
    let d = p.0;
    lemma_token_no_nl(d);
    lemma_token_no_nl(x_text(p));
    lemma_token_no_nl(y_text(p));
    assert(!" "@.contains('\n'));
    assert(!"@"@.contains('\n'));
    lemma_no_nl_concat(d, " "@);
    lemma_no_nl_concat(d + " "@, device_text(p));
    lemma_no_nl_concat(d + " "@ + device_text(p), "@"@);
    lemma_no_nl_concat(d + " "@ + device_text(p) + "@"@, footprint_text(p));
    lemma_alpha_not_special(d[0]);
    assert(part_body(p)[0] == d[0]);
    lemma_first_not_star(part_body(p));
}

/// A part that reads back is harmless to the others.
pub proof fn lemma_writable_harmless(p: PartV)
    requires
        writable_part(p),
    ensures
        harmless_part(p),
{
    lemma_token_no_nl(device_text(p));
    if footprint_text(p).len() > 0 {
        lemma_token_no_nl(footprint_text(p));
    } else {
        assert(!footprint_text(p).contains('\n'));
    }
}

/// Writing a schematic and reading the text back gives a part that reads
/// back (see [`writable_part`]) with its device, its footprint and its
/// position (when both coordinates are float literals), and no part under
/// a name that no part has; whatever devices and footprints the other parts
/// hold, as long as their designators read back, their coordinates are
/// tokens and nothing holds a line feed (see [`harmless_part`]), and the
/// nets read back (see [`writable_nets`]).
#[verifier::spinoff_prover]
#[verifier::rlimit(60)]
pub proof fn lemma_format_then_parse_part(m: SchModel, i: int, z: Text)
    requires
        keys_unique(m.parts),
        0 <= i < m.parts.len(),
        writable_part(m.parts[i]),
        forall|j: int| 0 <= j < m.parts.len() ==> harmless_part(#[trigger] m.parts[j]),
        forall|j: int| 0 <= j < m.parts.len() ==> m.parts[j].0 != z,
        writable_nets(m.nets),
    ensures
        lookup(parse_model(format_model(m)).parts, m.parts[i].0) == Some(reread_entry(m.parts[i]).1),
        !has_key(parse_model(format_model(m)).parts, z),
{
    assert forall|j: int| 0 <= j < m.parts.len() implies inert_part(#[trigger] m.parts[j]) by {
        lemma_harmless_inert(m.parts[j]);
    }
    lemma_format_lines(m);
    let all = all_lines(m);
    lemma_all_clean(m);
    let s0 = init_state();
    lemma_run_lines(s0, all, seq![]);
    assert(lines_text(all) + Seq::<char>::empty() =~= lines_text(all));
    let sf = fold_steps(s0, all);
    lemma_step_blank(sf);
    assert(run_text(sf, Seq::<char>::empty()) == step(sf, seq![]));
    let a = seq![header_line(), seq![], "*PART*"@];
    let b = part_bodies(m.parts);
    let c = seq![seq![], "*NET*"@];
    let d = nets_lines(m.nets);
    let e = seq![seq![], "*SCH*"@];
    let f = schs_lines(m.parts);
    let g = seq![seq![], "*END*"@];
    assert(all =~= a + b + c + d + e + f + g);
    lemma_fold_steps_append(s0, a + b + c + d + e + f, g);
    lemma_fold_steps_append(s0, a + b + c + d + e, f);
    lemma_fold_steps_append(s0, a + b + c + d, e);
    lemma_fold_steps_append(s0, a + b + c, d);
    lemma_fold_steps_append(s0, a + b, c);
    lemma_fold_steps_append(s0, a, b);
    lemma_fold_three(s0, header_line(), seq![], "*PART*"@);
    lemma_step_first(s0);
    lemma_step_blank(s0);
    lemma_header_part();
    lemma_step_header(s0, "*PART*"@, Section::Part);
    let s1 = s0.with_section(Section::Part).with_part(None);
    assert(fold_steps(s0, a) == s1);
    let p = m.parts[i];
    let n = m.parts.len() as int;
    assert forall|t: int| 0 <= t < n implies !has_key(s1.model.parts, #[trigger] m.parts[t].0) by {}
    lemma_parts_frame(s1, m.parts, i, z, n);
    assert(m.parts.take(n) =~= m.parts);
    assert forall|t: int| 0 <= t < b.len() implies quiet_line(#[trigger] b[t]) by {
        assert(b[t] == part_body(m.parts[t]));
        assert(inert_part(m.parts[t]));
    }
    lemma_fold_quiet(s1, b);
    let s2 = fold_steps(s1, b);
    assert(lookup(s2.model.parts, z) == lookup(s1.model.parts, z));
    lemma_fold_two(s2, seq![], "*NET*"@);
    lemma_step_blank(s2);
    lemma_header_net();
    lemma_step_header(s2, "*NET*"@, Section::Net);
    let s3 = s2.with_section(Section::Net).with_part(None);
    lemma_nets_phase(s3, m.nets);
    let s4 = fold_steps(s3, d);
    lemma_fold_two(s4, seq![], "*SCH*"@);
    lemma_step_blank(s4);
    lemma_header_sch();
    lemma_step_header(s4, "*SCH*"@, Section::Sch);
    let s5 = s4.with_section(Section::Sch).with_part(None);
    assert(s5.model.parts == s2.model.parts);
    lemma_sch_frame(s5, m.parts, i, z, n);
    let s6 = fold_steps(s5, f);
    lemma_fold_two(s6, seq![], "*END*"@);
    lemma_step_blank(s6);
    lemma_header_end();
    lemma_step_header(s6, "*END*"@, Section::Ignore);
    assert(sf.model.parts == s6.model.parts);
    lemma_sch_lines_clean(m.parts);
    lemma_fold_quiet(s5, f);
    lemma_flush_empty(sf);
    let x = def_entry(p).1 + xy_entries(p);
    assert(x == reread_entry(p).1);
    reveal_strlit("Device");
    assert(x[0].0 == "Device"@);
    lemma_key_index(x, "Device"@);
    if key_index(x, "Device"@) < 0 {
        assert(x[0].0 != "Device"@);
    }
    assert(keep_part((p.0, x)));
    lemma_filter_lookup(sf.model.parts, p.0, x);
    lemma_filter_absent(sf.model.parts, z);
}

} // verus!
