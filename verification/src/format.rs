//! Writing [`SchData`] as PADS Logic schematic text (V3.0 header, `\r\n`
//! line ends): the `*PART*` list, the `*NET*` list, the `*SCH*` positions
//! and `*END*`.
use vstd::prelude::*;
use crate::text::{Text, strings_view, starts_with, ends_with};
use crate::model::{Part, Net, SchData, SchModel, PartV, NetV, AttrsV, parts_view, nets_view, lookup, attrs_get};

verus! {

/// The value of attribute `k`, or `d` when it is not set.
pub open spec fn attr_or(attrs: AttrsV, k: Text, d: Text) -> Text {
    match lookup(attrs, k) {
        Some(v) => v,
        None => d,
    }
}

pub open spec fn header_text() -> Text {
    "!PADS-POWERLOGIC-V3.0-ANSIC! DESIGN-UNITS-ENGLISH\r\n\r\n"@
}

/// `DESIGNATOR DEVICE@FOOTPRINT`, or `DESIGNATOR DEVICE` without a footprint.
pub open spec fn part_line(p: PartV) -> Text {
    let dev = attr_or(p.1, "Device"@, seq![]);
    let fp = attr_or(p.1, "Footprint"@, seq![]);
    if fp.len() > 0 {
        p.0 + " "@ + dev + "@"@ + fp + "\r\n"@
    } else {
        p.0 + " "@ + dev + "\r\n"@
    }
}

pub open spec fn part_lines(ps: Seq<PartV>) -> Text
    decreases ps.len(),
{
    if ps.len() == 0 {
        seq![]
    } else {
        part_lines(ps.drop_last()) + part_line(ps.last())
    }
}

pub open spec fn pin_lines(pins: Seq<Text>) -> Text
    decreases pins.len(),
{
    if pins.len() == 0 {
        seq![]
    } else {
        pin_lines(pins.drop_last()) + pins.last() + "\r\n"@
    }
}

/// `*SIGNAL* NAME` and one line per pin.
pub open spec fn net_block(n: NetV) -> Text {
    "*SIGNAL* "@ + n.0 + "\r\n"@ + pin_lines(n.1)
}

pub open spec fn net_blocks(ns: Seq<NetV>) -> Text
    decreases ns.len(),
{
    if ns.len() == 0 {
        seq![]
    } else {
        net_blocks(ns.drop_last()) + net_block(ns.last())
    }
}

/// `PART DESIGNATOR X Y 0 0` and `"Device" "DEVICE"`.
pub open spec fn sch_block(p: PartV) -> Text {
    let x = attr_or(p.1, "x"@, "0"@);
    let y = attr_or(p.1, "y"@, "0"@);
    let dev = attr_or(p.1, "Device"@, seq![]);
    "PART "@ + p.0 + " "@ + x + " "@ + y + " 0 0\r\n"@ + "\"Device\" \""@ + dev + "\"\r\n"@
}

pub open spec fn sch_blocks(ps: Seq<PartV>) -> Text
    decreases ps.len(),
{
    if ps.len() == 0 {
        seq![]
    } else {
        sch_blocks(ps.drop_last()) + sch_block(ps.last())
    }
}

/// The whole file.
pub open spec fn format_model(m: SchModel) -> Text {
    header_text() + "*PART*\r\n"@ + part_lines(m.parts) + "\r\n"@ + "*NET*\r\n"@ + net_blocks(m.nets)
        + "\r\n"@ + "*SCH*\r\n"@ + sch_blocks(m.parts) + "\r\n"@ + "*END*\r\n"@
}

fn attr_or_exec(p: &Part, k: &str, d: &str) -> (r: String)
    ensures
        r@ == attr_or(p@.1, k@, d@),
{
    match attrs_get(&p.attrs, &String::from_str(k)) {
        Some(v) => v,
        None => String::from_str(d),
    }
}

fn push_part_line(out: &mut String, p: &Part)
    ensures
        final(out)@ == old(out)@ + part_line(p@),
{
    let dev = attr_or_exec(p, "Device", "");
    let fp = attr_or_exec(p, "Footprint", "");
    proof {
        reveal_strlit("");
    }
    out.append(p.designator.as_str());
    out.append(" ");
    out.append(dev.as_str());
    if fp.as_str().unicode_len() > 0 {
        out.append("@");
        out.append(fp.as_str());
    }
    out.append("\r\n");
    assert(final(out)@ =~= old(out)@ + part_line(p@)) by {
        assert(p@.0 == p.designator@);
    }
}

fn push_net_block(out: &mut String, n: &Net)
    ensures
        final(out)@ == old(out)@ + net_block(n@),
{
    out.append("*SIGNAL* ");
    out.append(n.name.as_str());
    out.append("\r\n");
    let ghost start = out@;
    let ghost pins = strings_view(n.pins@);
    let mut i: usize = 0;
    while i < n.pins.len()
        invariant
            i <= n.pins.len(),
            pins == strings_view(n.pins@),
            out@ == start + pin_lines(pins.take(i as int)),
        decreases n.pins.len() - i,
    {
        out.append(n.pins[i].as_str());
        out.append("\r\n");
        assert(pins.take(i + 1).drop_last() =~= pins.take(i as int));
        assert(out@ =~= start + pin_lines(pins.take(i + 1)));
        i += 1;
    }
    assert(pins.take(n.pins.len() as int) =~= pins);
    assert(out@ =~= old(out)@ + net_block(n@));
}

fn push_sch_block(out: &mut String, p: &Part)
    ensures
        final(out)@ == old(out)@ + sch_block(p@),
{
    let x = attr_or_exec(p, "x", "0");
    let y = attr_or_exec(p, "y", "0");
    let dev = attr_or_exec(p, "Device", "");
    out.append("PART ");
    out.append(p.designator.as_str());
    out.append(" ");
    out.append(x.as_str());
    out.append(" ");
    out.append(y.as_str());
    out.append(" 0 0\r\n");
    out.append("\"Device\" \"");
    out.append(dev.as_str());
    out.append("\"\r\n");
    proof {
        reveal_strlit("");
    }
    assert(out@ =~= old(out)@ + sch_block(p@));
}

/// Writes the schematic as PADS Logic text.
pub fn format_sch_content(data: &SchData) -> (r: String)
    ensures
        r@ == format_model(data@),
        starts_with(r@, header_text()),
        ends_with(r@, "*END*\r\n"@),
{
    let mut out = String::from_str("!PADS-POWERLOGIC-V3.0-ANSIC! DESIGN-UNITS-ENGLISH\r\n\r\n");
    out.append("*PART*\r\n");
    let ghost ps = parts_view(data.parts@);
    let ghost s1 = out@;
    let mut i: usize = 0;
    while i < data.parts.len()
        invariant
            i <= data.parts.len(),
            ps == parts_view(data.parts@),
            out@ == s1 + part_lines(ps.take(i as int)),
        decreases data.parts.len() - i,
    {
        push_part_line(&mut out, &data.parts[i]);
        assert(ps.take(i + 1).drop_last() =~= ps.take(i as int));
        assert(out@ =~= s1 + part_lines(ps.take(i + 1)));
        i += 1;
    }
    assert(ps.take(data.parts.len() as int) =~= ps);
    out.append("\r\n");
    out.append("*NET*\r\n");
    let ghost ns = nets_view(data.nets@);
    let ghost s2 = out@;
    let mut j: usize = 0;
    while j < data.nets.len()
        invariant
            j <= data.nets.len(),
            ns == nets_view(data.nets@),
            out@ == s2 + net_blocks(ns.take(j as int)),
        decreases data.nets.len() - j,
    {
        push_net_block(&mut out, &data.nets[j]);
        assert(ns.take(j + 1).drop_last() =~= ns.take(j as int));
        assert(out@ =~= s2 + net_blocks(ns.take(j + 1)));
        j += 1;
    }
    assert(ns.take(data.nets.len() as int) =~= ns);
    out.append("\r\n");
    out.append("*SCH*\r\n");
    let ghost s3 = out@;
    let mut k: usize = 0;
    while k < data.parts.len()
        invariant
            k <= data.parts.len(),
            ps == parts_view(data.parts@),
            out@ == s3 + sch_blocks(ps.take(k as int)),
        decreases data.parts.len() - k,
    {
        push_sch_block(&mut out, &data.parts[k]);
        assert(ps.take(k + 1).drop_last() =~= ps.take(k as int));
        assert(out@ =~= s3 + sch_blocks(ps.take(k + 1)));
        k += 1;
    }
    assert(ps.take(data.parts.len() as int) =~= ps);
    out.append("\r\n");
    out.append("*END*\r\n");
    assert(out@ =~= format_model(data@));
    assert(out@.take(header_text().len() as int) =~= header_text());
    assert(out@.skip(out@.len() - "*END*\r\n"@.len()) =~= "*END*\r\n"@);
    out
}

} // verus!
