//! What reading keeps true at every line: unique keys, pins that are pin
//! names, coordinates that are float literals.
use vstd::prelude::*;
use crate::text::Text;
use crate::roundtrip::is_token;
use crate::number::is_float_literal;
use crate::model::{
    SchModel, PartV, NetV, SegV, AttrsV, keys_unique, key_index, assoc_insert, entry_or,
    lemma_key_index, lemma_assoc_insert, lemma_entry_or,
};
use crate::parse::{
    ParseState, step, body_step, net_step, part_step, define_step, set_xy, quoted_attr, add_point,
    flush, segments, set_part_attr, net_add_pin, add_pins, pin_ok, run_text, init_state, finish,
    keep_part, keep_part_pred, parse_model, header_section, is_coord, device_of, footprint_of,
    part_record,
};

verus! {

/// A pin as the reader takes it: a pin name that is a non-empty token
/// without whitespace.
pub open spec fn pin_name(t: Text) -> bool {
    pin_ok(t) && is_token(t)
}

pub open spec fn seg_ok(l: SegV) -> bool {
    is_float_literal(l.0) && is_float_literal(l.1) && is_float_literal(l.2) && is_float_literal(l.3)
}

/// The model read so far is well formed, its nets list only pin names
/// (non-empty, without whitespace, not `OPEN`, not `@@@` markers) and
/// its segments only float literals.
pub open spec fn model_ok(m: SchModel) -> bool {
    &&& m.wf()
    &&& forall|i: int, j: int|
        0 <= i < m.nets.len() && 0 <= j < m.nets[i].1.len() ==> pin_name(#[trigger] m.nets[i].1[j])
    &&& forall|i: int| 0 <= i < m.lines.len() ==> seg_ok(#[trigger] m.lines[i])
}

pub open spec fn state_ok(st: ParseState) -> bool {
    &&& model_ok(st.model)
    &&& st.points.len() % 2 == 0
    &&& forall|i: int| 0 <= i < st.points.len() ==> is_float_literal(#[trigger] st.points[i])
}

proof fn lemma_flush_ok(st: ParseState)
    requires
        state_ok(st),
    ensures
        state_ok(flush(st)),
{
    let s = flush(st);
    let segs = segments(st.points);
    assert forall|i: int| 0 <= i < s.model.lines.len() implies seg_ok(#[trigger] s.model.lines[i]) by {
        if i >= st.model.lines.len() {
            let j = i - st.model.lines.len();
            assert(s.model.lines[i] == segs[j]);
            assert(st.points.len() >= 4);
            assert(is_float_literal(st.points[2 * j]));
            assert(is_float_literal(st.points[2 * j + 1]));
            assert(is_float_literal(st.points[2 * j + 2]));
            assert(is_float_literal(st.points[2 * j + 3]));
        } else {
            assert(s.model.lines[i] == st.model.lines[i]);
        }
    }
}

proof fn lemma_add_point_ok(st: ParseState, toks: Seq<Text>)
    requires
        state_ok(st),
        toks.len() >= 2,
    ensures
        state_ok(add_point(st, toks)),
{
    let s = add_point(st, toks);
    if is_float_literal(toks[0]) && is_float_literal(toks[1]) {
        assert forall|i: int| 0 <= i < s.points.len() implies is_float_literal(#[trigger] s.points[i]) by {
            if i < st.points.len() {
                assert(s.points[i] == st.points[i]);
            }
        }
    }
}

/// Parts after `entry_or` and `set_part_attr` keep unique keys and unique
/// attribute keys.
proof fn lemma_parts_entry_ok(parts: Seq<PartV>, k: Text)
    requires
        keys_unique(parts),
        forall|i: int| 0 <= i < parts.len() ==> keys_unique(#[trigger] parts[i].1),
    ensures
        keys_unique(entry_or(parts, k, seq![])),
        forall|i: int| 0 <= i < entry_or(parts, k, seq![]).len() ==> keys_unique(
            #[trigger] entry_or(parts, k, seq![])[i].1,
        ),
{
    lemma_entry_or(parts, k, seq![]);
    let r = entry_or(parts, k, seq![]);
    assert forall|i: int| 0 <= i < r.len() implies keys_unique(#[trigger] r[i].1) by {
        if i < parts.len() {
            assert(r[i] == parts[i]);
        } else {
            let e: AttrsV = seq![];
            assert(r[i].1 == e);
        }
    }
}

proof fn lemma_set_part_attr_ok(parts: Seq<PartV>, pn: Text, k: Text, v: Text)
    requires
        keys_unique(parts),
        forall|i: int| 0 <= i < parts.len() ==> keys_unique(#[trigger] parts[i].1),
    ensures
        keys_unique(set_part_attr(parts, pn, k, v)),
        forall|i: int| 0 <= i < set_part_attr(parts, pn, k, v).len() ==> keys_unique(
            #[trigger] set_part_attr(parts, pn, k, v)[i].1,
        ),
{
    let r = set_part_attr(parts, pn, k, v);
    let ix = key_index(parts, pn);
    lemma_key_index(parts, pn);
    if ix >= 0 {
        lemma_assoc_insert(parts[ix].1, k, v);
        assert forall|a: int, b: int| 0 <= a < b < r.len() implies r[a].0 != r[b].0 by {
            assert(r[a].0 == parts[a].0);
            assert(r[b].0 == parts[b].0);
        }
        assert forall|i: int| 0 <= i < r.len() implies keys_unique(#[trigger] r[i].1) by {
            if i != ix {
                assert(r[i] == parts[i]);
            }
        }
    }
}

proof fn lemma_nets_entry_ok(nets: Seq<NetV>, k: Text)
    requires
        keys_unique(nets),
        forall|i: int| 0 <= i < nets.len() ==> (#[trigger] nets[i].1).no_duplicates(),
        forall|i: int, j: int| 0 <= i < nets.len() && 0 <= j < nets[i].1.len() ==> pin_name(#[trigger] nets[i].1[j]),
    ensures
        keys_unique(entry_or(nets, k, seq![])),
        forall|i: int|
            0 <= i < entry_or(nets, k, seq![]).len() ==> (#[trigger] entry_or(nets, k, seq![])[i].1).no_duplicates(),
        forall|i: int, j: int|
            0 <= i < entry_or(nets, k, seq![]).len() && 0 <= j < entry_or(nets, k, seq![])[i].1.len()
                ==> pin_name(#[trigger] entry_or(nets, k, seq![])[i].1[j]),
{
    lemma_entry_or(nets, k, seq![]);
    let r = entry_or(nets, k, seq![]);
    assert forall|i: int| 0 <= i < r.len() implies (#[trigger] r[i].1).no_duplicates() by {
        if i < nets.len() {
            assert(r[i] == nets[i]);
        }
    }
    assert forall|i: int, j: int| 0 <= i < r.len() && 0 <= j < r[i].1.len() implies pin_name(#[trigger] r[i].1[j]) by {
        if i < nets.len() {
            assert(r[i] == nets[i]);
        }
    }
}

proof fn lemma_net_add_pin_ok(nets: Seq<NetV>, n: Text, pin: Text)
    requires
        keys_unique(nets),
        forall|i: int| 0 <= i < nets.len() ==> (#[trigger] nets[i].1).no_duplicates(),
        forall|i: int, j: int| 0 <= i < nets.len() && 0 <= j < nets[i].1.len() ==> pin_name(#[trigger] nets[i].1[j]),
        pin_name(pin),
    ensures
        keys_unique(net_add_pin(nets, n, pin)),
        forall|i: int|
            0 <= i < net_add_pin(nets, n, pin).len() ==> (#[trigger] net_add_pin(nets, n, pin)[i].1).no_duplicates(),
        forall|i: int, j: int|
            0 <= i < net_add_pin(nets, n, pin).len() && 0 <= j < net_add_pin(nets, n, pin)[i].1.len()
                ==> pin_name(#[trigger] net_add_pin(nets, n, pin)[i].1[j]),
{
    let r = net_add_pin(nets, n, pin);
    let ix = key_index(nets, n);
    lemma_key_index(nets, n);
    if ix >= 0 && !nets[ix].1.contains(pin) {
        let ps = nets[ix].1;
        assert forall|a: int, b: int| 0 <= a < b < r.len() implies r[a].0 != r[b].0 by {
            assert(r[a].0 == nets[a].0);
            assert(r[b].0 == nets[b].0);
        }
        assert forall|i: int| 0 <= i < r.len() implies (#[trigger] r[i].1).no_duplicates() by {
            if i != ix {
                assert(r[i] == nets[i]);
            } else {
                let q = ps.push(pin);
                assert forall|a: int, b: int| 0 <= a < q.len() && 0 <= b < q.len() && a != b implies q[a] != q[b] by {
                    if a < ps.len() && b < ps.len() {
                        assert(ps[a] != ps[b]);
                    } else if a < ps.len() {
                        assert(ps.contains(ps[a]));
                    } else if b < ps.len() {
                        assert(ps.contains(ps[b]));
                    }
                }
            }
        }
        assert forall|i: int, j: int| 0 <= i < r.len() && 0 <= j < r[i].1.len() implies pin_name(#[trigger] r[i].1[j]) by {
            if i != ix {
                assert(r[i] == nets[i]);
            } else if j < ps.len() {
                assert(r[i].1[j] == ps[j]);
            }
        }
    }
}

proof fn lemma_add_pins_ok(nets: Seq<NetV>, n: Text, toks: Seq<Text>)
    requires
        forall|i: int| 0 <= i < toks.len() ==> is_token(#[trigger] toks[i]),
        keys_unique(nets),
        forall|i: int| 0 <= i < nets.len() ==> (#[trigger] nets[i].1).no_duplicates(),
        forall|i: int, j: int| 0 <= i < nets.len() && 0 <= j < nets[i].1.len() ==> pin_name(#[trigger] nets[i].1[j]),
    ensures
        keys_unique(add_pins(nets, n, toks)),
        forall|i: int|
            0 <= i < add_pins(nets, n, toks).len() ==> (#[trigger] add_pins(nets, n, toks)[i].1).no_duplicates(),
        forall|i: int, j: int|
            0 <= i < add_pins(nets, n, toks).len() && 0 <= j < add_pins(nets, n, toks)[i].1.len()
                ==> pin_name(#[trigger] add_pins(nets, n, toks)[i].1[j]),
{
    if toks.len() > 0 && pin_ok(toks[0]) {
        lemma_net_add_pin_ok(nets, n, toks[0]);
    }
    let n1 = if toks.len() > 0 && pin_ok(toks[0]) {
        net_add_pin(nets, n, toks[0])
    } else {
        nets
    };
    if toks.len() > 1 && pin_ok(toks[1]) {
        lemma_net_add_pin_ok(n1, n, toks[1]);
    }
}

proof fn lemma_define_step_ok(st: ParseState, line: Text, toks: Seq<Text>)
    requires
        state_ok(st),
        toks.len() >= 1,
    ensures
        state_ok(define_step(st, line, toks)),
{
    if st.section == crate::parse::Section::Part && toks[0].len() > 0 && toks.len() >= 2 {
        let d = toks[0];
        let parts1 = entry_or(st.model.parts, d, seq![]);
        lemma_parts_entry_ok(st.model.parts, d);
        let parts2 = set_part_attr(parts1, d, "Device"@, device_of(toks[1]));
        lemma_set_part_attr_ok(parts1, d, "Device"@, device_of(toks[1]));
        match footprint_of(toks[1]) {
            Some(fp) => {
                lemma_set_part_attr_ok(parts2, d, "Footprint"@, fp);
            },
            None => {},
        }
    }
}

proof fn lemma_set_xy_ok(st: ParseState, pn: Text, toks: Seq<Text>)
    requires
        state_ok(st),
        toks.len() >= 2,
    ensures
        state_ok(set_xy(st, pn, toks)),
{
    let parts = st.model.parts;
    let ix = key_index(parts, pn);
    lemma_key_index(parts, pn);
    if ix >= 0 {
        let a1 = assoc_insert(parts[ix].1, "x"@, toks[0]);
        lemma_assoc_insert(parts[ix].1, "x"@, toks[0]);
        lemma_assoc_insert(a1, "y"@, toks[1]);
        let r = set_xy(st, pn, toks).model.parts;
        assert forall|a: int, b: int| 0 <= a < b < r.len() implies r[a].0 != r[b].0 by {
            assert(r[a].0 == parts[a].0);
            assert(r[b].0 == parts[b].0);
        }
        assert forall|i: int| 0 <= i < r.len() implies keys_unique(#[trigger] r[i].1) by {
            if i != ix {
                assert(r[i] == parts[i]);
            }
        }
    }
}

proof fn lemma_part_record_ok(st: ParseState, toks: Seq<Text>)
    requires
        state_ok(st),
    ensures
        state_ok(part_record(st, toks)),
{
    if toks.len() >= 2 {
        let d = toks[1];
        let parts1 = entry_or(st.model.parts, d, seq![]);
        lemma_parts_entry_ok(st.model.parts, d);
        lemma_set_part_attr_ok(parts1, d, "x"@, toks[2]);
        lemma_set_part_attr_ok(set_part_attr(parts1, d, "x"@, toks[2]), d, "y"@, toks[3]);
    }
}

proof fn lemma_part_step_ok(st: ParseState, line: Text, toks: Seq<Text>, coord: bool)
    requires
        state_ok(st),
        toks.len() >= 1,
        coord == is_coord(toks),
    ensures
        state_ok(part_step(st, line, toks, coord)),
{
    match st.part {
        Some(pn) => {
            if crate::text::starts_with(line, "\""@) {
                let q: int = 1 + crate::text::lead_while(line.skip(1), crate::text::other_than('"')) as int;
                if q < line.len() {
                    lemma_set_part_attr_ok(
                        st.model.parts,
                        pn,
                        line.subrange(1, q),
                        crate::text::trim_quotes(crate::text::trim(line.skip(q + 1))),
                    );
                }
            } else if coord {
                lemma_set_xy_ok(st, pn, toks);
            } else {
                lemma_define_step_ok(st, line, toks);
            }
        },
        None => {
            lemma_define_step_ok(st, line, toks);
        },
    }
}

proof fn lemma_net_step_ok(st: ParseState, line: Text, toks: Seq<Text>, coord: bool)
    requires
        forall|i: int| 0 <= i < toks.len() ==> is_token(#[trigger] toks[i]),
        state_ok(st),
        toks.len() >= 1,
        coord == is_coord(toks),
    ensures
        state_ok(net_step(st, line, toks, coord)),
{
    if crate::text::starts_with(line, "*SIGNAL* "@) {
        lemma_flush_ok(st);
        let s1 = flush(st);
        if toks.len() >= 2 {
            lemma_nets_entry_ok(s1.model.nets, toks[1]);
        }
    } else if !crate::text::starts_with(line, "*"@) {
        if coord {
            lemma_add_point_ok(st, toks);
        } else {
            lemma_flush_ok(st);
            let s1 = flush(st);
            match s1.net {
                Some(n) => {
                    lemma_add_pins_ok(s1.model.nets, n, toks);
                },
                None => {},
            }
        }
    }
}

/// One line keeps the reader's state good.
pub proof fn lemma_step_ok(st: ParseState, raw: Text)
    requires
        state_ok(st),
    ensures
        state_ok(step(st, raw)),
{
    let line = crate::text::trim(raw);
    if line.len() > 0 && header_section(line).is_none() {
        let toks = crate::text::split_ws(line);
        crate::text::lemma_split_ws(line);
        assert forall|i: int| 0 <= i < toks.len() implies is_token(#[trigger] toks[i]) by {
            assert forall|j: int| 0 <= j < toks[i].len() implies !crate::text::is_ws(#[trigger] toks[i][j]) by {}
        }
        if toks.len() > 0 {
            let coord = is_coord(toks);
            if st.section == crate::parse::Section::Lines {
                if coord {
                    lemma_add_point_ok(st, toks);
                } else {
                    lemma_flush_ok(st);
                }
            } else if st.section == crate::parse::Section::Connection || st.section
                == crate::parse::Section::Net {
                lemma_net_step_ok(st, line, toks, coord);
            } else if crate::text::starts_with(line, "TEXT"@) || crate::text::starts_with(line, "OPEN"@)
                || crate::text::starts_with(line, "LINE"@) || crate::text::starts_with(line, "BORDER"@) {
            } else if crate::text::starts_with(line, "PART "@) {
                lemma_part_record_ok(st, toks);
            } else {
                lemma_part_step_ok(st, line, toks, coord);
            }
        }
    }
}

pub proof fn lemma_run_text_ok(st: ParseState, s: Text)
    requires
        state_ok(st),
    ensures
        state_ok(run_text(st, s)),
    decreases s.len(),
{
    let k = crate::text::lead_while(s, crate::text::other_than('\n'));
    lemma_step_ok(st, s.take(k as int));
    crate::text::lemma_lead_while(s, crate::text::other_than('\n'));
    if k < s.len() {
        lemma_run_text_ok(step(st, s.take(k as int)), s.skip(k as int + 1));
    }
}

/// Dropping parts keeps keys unique and attribute keys unique.
proof fn lemma_filter_parts(parts: Seq<PartV>)
    requires
        keys_unique(parts),
        forall|i: int| 0 <= i < parts.len() ==> keys_unique(#[trigger] parts[i].1),
    ensures
        keys_unique(parts.filter(keep_part_pred())),
        forall|i: int|
            0 <= i < parts.filter(keep_part_pred()).len() ==> keys_unique(
                #[trigger] parts.filter(keep_part_pred())[i].1,
            ),
        forall|i: int|
            0 <= i < parts.filter(keep_part_pred()).len() ==> keep_part(
                #[trigger] parts.filter(keep_part_pred())[i],
            ),
        forall|i: int|
            0 <= i < parts.filter(keep_part_pred()).len() ==> exists|j: int|
                0 <= j < parts.len() && #[trigger] parts.filter(keep_part_pred())[i] == parts[j],
    decreases parts.len(),
{
    reveal(Seq::filter);
    if parts.len() > 0 {
        let init = parts.drop_last();
        assert forall|a: int, b: int| 0 <= a < b < init.len() implies init[a].0 != init[b].0 by {
            assert(init[a] == parts[a]);
            assert(init[b] == parts[b]);
        }
        assert forall|i: int| 0 <= i < init.len() implies keys_unique(#[trigger] init[i].1) by {
            assert(init[i] == parts[i]);
        }
        lemma_filter_parts(init);
        let f0 = init.filter(keep_part_pred());
        let f = parts.filter(keep_part_pred());
        if keep_part_pred()(parts.last()) {
            assert(f == f0.push(parts.last()));
            assert forall|a: int, b: int| 0 <= a < b < f.len() implies f[a].0 != f[b].0 by {
                if b == f.len() - 1 {
                    let j = choose|j: int| 0 <= j < init.len() && f0[a] == init[j];
                    assert(init[j] == parts[j]);
                    assert(parts[j].0 != parts[parts.len() - 1].0);
                } else {
                    assert(f[a] == f0[a]);
                    assert(f[b] == f0[b]);
                }
            }
            assert forall|i: int| 0 <= i < f.len() implies exists|j: int|
                0 <= j < parts.len() && #[trigger] f[i] == parts[j] by {
                if i < f0.len() {
                    let j = choose|j: int| 0 <= j < init.len() && f0[i] == init[j];
                    assert(init[j] == parts[j]);
                } else {
                    assert(f[i] == parts[parts.len() - 1]);
                }
            }
            assert forall|i: int| 0 <= i < f.len() implies keys_unique(#[trigger] f[i].1) by {
                if i < f0.len() {
                    assert(f[i] == f0[i]);
                }
            }
            assert forall|i: int| 0 <= i < f.len() implies keep_part(#[trigger] f[i]) by {
                if i < f0.len() {
                    assert(f[i] == f0[i]);
                }
            }
        } else {
            assert(f == f0);
            assert forall|i: int| 0 <= i < f.len() implies exists|j: int|
                0 <= j < parts.len() && #[trigger] f[i] == parts[j] by {
                let j = choose|j: int| 0 <= j < init.len() && f0[i] == init[j];
                assert(init[j] == parts[j]);
            }
        }
    }
}

/// What [`crate::parse::parse_sch_txt_content`] returns is well formed:
/// designators, attribute keys and net names are unique and no net lists a
/// pin twice; every part it keeps has a designator without `"` and `-`
/// and a position or a device; every pin is a pin name (not `OPEN`, not a
/// `@@@` marker) and every segment coordinate is a float literal.
pub proof fn lemma_parse_model_ok(content: Text)
    ensures
        model_ok(parse_model(content)),
        forall|i: int|
            0 <= i < parse_model(content).parts.len() ==> keep_part(#[trigger] parse_model(content).parts[i]),
{
    let st0 = init_state();
    assert(state_ok(st0));
    lemma_run_text_ok(st0, content);
    let st = run_text(st0, content);
    lemma_flush_ok(st);
    lemma_filter_parts(flush(st).model.parts);
}

} // verus!
