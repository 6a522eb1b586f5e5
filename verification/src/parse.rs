//! Reading PADS Logic schematic text into [`SchData`], one line at a time.
//!
//! The reader keeps the section it is in (`*PART*`, `*NET*`,
//! `*CONNECTION*`, `*SCH*`, `*LINES*` or one it ignores), the part and the
//! net that the following lines describe, and the corner points of the
//! polyline it is collecting.  [`step`] states what one line does to that
//! state; [`parse_model`] is the whole file.
use vstd::prelude::*;
use crate::text::{
    Text, trim, trim_quotes, starts_with, split_ws, lead_while, other_than, is_ascii_alpha,
    texts_of, strings_view, lemma_lead_while, lemma_split_ws, trim_vec, split_ws_vec,
    starts_with_lit, eq_lit, string_of_all, string_of, copy_range, is_ascii_alpha_char,
    find_char_from, chars_of,
};
use crate::number::{is_float_literal, float_literal};
use crate::invariants::{model_ok, lemma_parse_model_ok};
use crate::model::{
    Attr, Part, Net, Segment, SchData, SchModel, PartV, NetV, SegV, AttrsV, attrs_view, parts_view,
    nets_view, segs_view, key_index, has_key, assoc_insert, entry_or, lemma_key_index, find_part,
    find_net, find_attr, contains_string, attrs_insert, keys_unique, lemma_assoc_insert,
    lemma_entry_or, lemma_key_index_is,
};

verus! {

/// The section of the file that the reader is in.
#[derive(PartialEq, Eq, Structural, Clone, Copy)]
pub enum Section {
    Start,
    Part,
    Net,
    Connection,
    Sch,
    Lines,
    Ignore,
}

/// What the reader knows after some lines.
#[verifier::ext_equal]
pub struct ParseState {
    pub section: Section,
    pub part: Option<Text>,
    pub net: Option<Text>,
    pub points: Seq<Text>,
    pub model: SchModel,
}

impl ParseState {
    pub open spec fn with_section(self, s: Section) -> ParseState {
        ParseState { section: s, part: self.part, net: self.net, points: self.points, model: self.model }
    }

    pub open spec fn with_part(self, p: Option<Text>) -> ParseState {
        ParseState { section: self.section, part: p, net: self.net, points: self.points, model: self.model }
    }

    pub open spec fn with_net(self, n: Option<Text>) -> ParseState {
        ParseState { section: self.section, part: self.part, net: n, points: self.points, model: self.model }
    }

    pub open spec fn with_points(self, p: Seq<Text>) -> ParseState {
        ParseState { section: self.section, part: self.part, net: self.net, points: p, model: self.model }
    }

    pub open spec fn with_parts(self, parts: Seq<PartV>) -> ParseState {
        ParseState {
            section: self.section,
            part: self.part,
            net: self.net,
            points: self.points,
            model: SchModel { parts: parts, nets: self.model.nets, lines: self.model.lines },
        }
    }

    pub open spec fn with_nets(self, nets: Seq<NetV>) -> ParseState {
        ParseState {
            section: self.section,
            part: self.part,
            net: self.net,
            points: self.points,
            model: SchModel { parts: self.model.parts, nets: nets, lines: self.model.lines },
        }
    }

    pub open spec fn with_lines(self, lines: Seq<SegV>) -> ParseState {
        ParseState {
            section: self.section,
            part: self.part,
            net: self.net,
            points: self.points,
            model: SchModel { parts: self.model.parts, nets: self.model.nets, lines: lines },
        }
    }
}

pub open spec fn empty_model() -> SchModel {
    SchModel { parts: seq![], nets: seq![], lines: seq![] }
}

pub open spec fn init_state() -> ParseState {
    ParseState { section: Section::Start, part: None, net: None, points: seq![], model: empty_model() }
}

/// The segments between consecutive points of a polyline given as
/// `x0, y0, x1, y1, ...`.
pub open spec fn segments(pts: Seq<Text>) -> Seq<SegV> {
    if pts.len() >= 4 {
        Seq::new(
            ((pts.len() - 2) / 2) as nat,
            |j: int| (pts[2 * j], pts[2 * j + 1], pts[2 * j + 2], pts[2 * j + 3]),
        )
    } else {
        seq![]
    }
}

/// The polyline collected so far becomes segments; a new one starts.
pub open spec fn flush(st: ParseState) -> ParseState {
    st.with_lines(st.model.lines + segments(st.points)).with_points(seq![])
}

/// The section that a line switches to, if it is a section header.
pub open spec fn header_section(line: Text) -> Option<Section> {
    if starts_with(line, "*PART*"@) {
        Some(Section::Part)
    } else if starts_with(line, "*NET*"@) {
        Some(Section::Net)
    } else if starts_with(line, "*CONNECTION*"@) {
        Some(Section::Connection)
    } else if starts_with(line, "*SCH*"@) {
        Some(Section::Sch)
    } else if starts_with(line, "*LINES*"@) {
        Some(Section::Lines)
    } else if starts_with(line, "*"@) && !starts_with(line, "*SIGNAL*"@) {
        Some(Section::Ignore)
    } else {
        None
    }
}

/// The line starts with a coordinate pair: two or more tokens, the first
/// a float literal, or `-` followed by one.
pub open spec fn is_coord(toks: Seq<Text>) -> bool {
    &&& toks.len() >= 2
    &&& (is_float_literal(toks[0]) || (toks[0].len() > 1 && toks[0][0] == '-'
        && is_float_literal(toks[0].drop_first())))
}

/// A point `(toks[0], toks[1])` is added to the polyline when both are
/// float literals.
pub open spec fn add_point(st: ParseState, toks: Seq<Text>) -> ParseState {
    if is_float_literal(toks[0]) && is_float_literal(toks[1]) {
        st.with_points(st.points.push(toks[0]).push(toks[1]))
    } else {
        st
    }
}

/// A token that names a pin: not `OPEN` and not a `@@@` marker.
pub open spec fn pin_ok(t: Text) -> bool {
    t != "OPEN"@ && !starts_with(t, "@@@"@)
}

/// Net `n` gains `pin` at the end, unless it has it already.
pub open spec fn net_add_pin(nets: Seq<NetV>, n: Text, pin: Text) -> Seq<NetV> {
    let i = key_index(nets, n);
    if i >= 0 && !nets[i].1.contains(pin) {
        nets.update(i, (nets[i].0, nets[i].1.push(pin)))
    } else {
        nets
    }
}

/// The first two tokens of a connection line join net `n` as pins.
pub open spec fn add_pins(nets: Seq<NetV>, n: Text, toks: Seq<Text>) -> Seq<NetV> {
    let n1 = if toks.len() > 0 && pin_ok(toks[0]) {
        net_add_pin(nets, n, toks[0])
    } else {
        nets
    };
    if toks.len() > 1 && pin_ok(toks[1]) {
        net_add_pin(n1, n, toks[1])
    } else {
        n1
    }
}

/// A line of the `*NET*` or `*CONNECTION*` section.
pub open spec fn net_step(st: ParseState, line: Text, toks: Seq<Text>, coord: bool) -> ParseState {
    if starts_with(line, "*SIGNAL* "@) {
        let s1 = flush(st);
        if toks.len() >= 2 {
            s1.with_net(Some(toks[1])).with_nets(entry_or(s1.model.nets, toks[1], seq![]))
        } else {
            s1
        }
    } else if !starts_with(line, "*"@) {
        if coord {
            add_point(st, toks)
        } else {
            let s1 = flush(st);
            match s1.net {
                Some(n) => s1.with_nets(add_pins(s1.model.nets, n, toks)),
                None => s1,
            }
        }
    } else {
        st
    }
}

/// Part `pn` gets attribute `k` set to `v`.
pub open spec fn set_part_attr(parts: Seq<PartV>, pn: Text, k: Text, v: Text) -> Seq<PartV> {
    let i = key_index(parts, pn);
    if i >= 0 {
        parts.update(i, (parts[i].0, assoc_insert(parts[i].1, k, v)))
    } else {
        parts
    }
}

/// A line `"key" value` gives the current part attribute `key`, unless it
/// has one: the device that the `*PART*` list gave stays.
pub open spec fn quoted_attr(st: ParseState, pn: Text, line: Text) -> ParseState {
    let q: int = 1 + lead_while(line.skip(1), other_than('"')) as int;
    if q < line.len() {
        let key = line.subrange(1, q);
        let value = trim_quotes(trim(line.skip(q + 1)));
        let i = key_index(st.model.parts, pn);
        if i >= 0 && has_key(st.model.parts[i].1, key) {
            st
        } else {
            st.with_parts(set_part_attr(st.model.parts, pn, key, value))
        }
    } else {
        st
    }
}

/// A coordinate line gives the current part its position, unless it has one.
pub open spec fn set_xy(st: ParseState, pn: Text, toks: Seq<Text>) -> ParseState {
    let i = key_index(st.model.parts, pn);
    if i >= 0 && !has_key(st.model.parts[i].1, "x"@) {
        let a = assoc_insert(assoc_insert(st.model.parts[i].1, "x"@, toks[0]), "y"@, toks[1]);
        st.with_parts(st.model.parts.update(i, (st.model.parts[i].0, a)))
    } else {
        st
    }
}

/// The text before the first `@` of `s`, and the text between the first and
/// the second, if there is a first.
pub open spec fn device_of(s: Text) -> Text {
    s.take(lead_while(s, other_than('@')) as int)
}

pub open spec fn footprint_of(s: Text) -> Option<Text> {
    let at: int = lead_while(s, other_than('@')) as int;
    if at < s.len() {
        let rest = s.skip(at + 1);
        Some(rest.take(lead_while(rest, other_than('@')) as int))
    } else {
        None
    }
}

/// A line `DESIGNATOR DEVICE@FOOTPRINT` of the `*PART*` section.
pub open spec fn define_step(st: ParseState, line: Text, toks: Seq<Text>) -> ParseState {
    if st.section == Section::Part && toks[0].len() > 0 && is_ascii_alpha(toks[0][0]) && toks.len()
        >= 2 && !starts_with(line, "PART "@) {
        let d = toks[0];
        let parts1 = entry_or(st.model.parts, d, seq![]);
        let parts2 = set_part_attr(parts1, d, "Device"@, device_of(toks[1]));
        let parts3 = match footprint_of(toks[1]) {
            Some(fp) => set_part_attr(parts2, d, "Footprint"@, fp),
            None => parts2,
        };
        st.with_part(Some(d)).with_parts(parts3)
    } else {
        st
    }
}

/// A line that may describe the current part.
pub open spec fn part_step(st: ParseState, line: Text, toks: Seq<Text>, coord: bool) -> ParseState {
    match st.part {
        Some(pn) => if starts_with(line, "\""@) {
            quoted_attr(st, pn, line)
        } else if coord {
            set_xy(st, pn, toks)
        } else {
            define_step(st, line, toks)
        },
        None => define_step(st, line, toks),
    }
}

/// A record `PART DESIGNATOR X Y ...` opens part `DESIGNATOR` and, when `X`
/// and `Y` are float literals, places it at `(X, Y)`.
pub open spec fn part_record(st: ParseState, toks: Seq<Text>) -> ParseState {
    if toks.len() >= 2 {
        let d = toks[1];
        let parts1 = entry_or(st.model.parts, d, seq![]);
        let parts2 = if toks.len() >= 4 && is_float_literal(toks[2]) && is_float_literal(toks[3]) {
            set_part_attr(set_part_attr(parts1, d, "x"@, toks[2]), d, "y"@, toks[3])
        } else {
            parts1
        };
        st.with_part(Some(d)).with_parts(parts2)
    } else {
        st.with_part(None)
    }
}

/// A non-blank line that is not a section header.
pub open spec fn body_step(st: ParseState, line: Text, toks: Seq<Text>) -> ParseState {
    let coord = is_coord(toks);
    if st.section == Section::Lines {
        if coord {
            add_point(st, toks)
        } else {
            flush(st)
        }
    } else if st.section == Section::Connection || st.section == Section::Net {
        net_step(st, line, toks, coord)
    } else if starts_with(line, "TEXT"@) || starts_with(line, "OPEN"@) || starts_with(line, "LINE"@)
        || starts_with(line, "BORDER"@) {
        st.with_part(None)
    } else if starts_with(line, "PART "@) {
        part_record(st, toks)
    } else {
        part_step(st, line, toks, coord)
    }
}

/// What one line of the file does.
pub open spec fn step(st: ParseState, raw: Text) -> ParseState {
    let line = trim(raw);
    if line.len() == 0 {
        st
    } else {
        match header_section(line) {
            Some(sec) => st.with_section(sec).with_part(None),
            None => {
                let toks = split_ws(line);
                if toks.len() == 0 {
                    st
                } else {
                    body_step(st, line, toks)
                }
            },
        }
    }
}

/// The lines of `s`, split at `\n`, read one after another from `st`.
pub open spec fn run_text(st: ParseState, s: Text) -> ParseState
    decreases s.len(),
{
    let k = lead_while(s, other_than('\n'));
    let st2 = step(st, s.take(k as int));
    if k < s.len() {
        proof {
            lemma_lead_while(s, other_than('\n'));
        }
        run_text(st2, s.skip(k as int + 1))
    } else {
        st2
    }
}

/// A part is kept when its designator holds no `"` and no `-`, and it has a
/// position or a device.
pub open spec fn keep_part(p: PartV) -> bool {
    &&& !p.0.contains('"')
    &&& !p.0.contains('-')
    &&& (has_key(p.1, "x"@) || has_key(p.1, "Device"@))
}

pub open spec fn keep_part_pred() -> spec_fn(PartV) -> bool {
    |p: PartV| keep_part(p)
}

pub open spec fn finish(st: ParseState) -> SchModel {
    let s1 = flush(st);
    SchModel {
        parts: s1.model.parts.filter(keep_part_pred()),
        nets: s1.model.nets,
        lines: s1.model.lines,
    }
}

/// The schematic that a file's text describes.
pub open spec fn parse_model(content: Text) -> SchModel {
    finish(run_text(init_state(), content))
}

pub open spec fn opt_text(o: Option<String>) -> Option<Text> {
    match o {
        Some(s) => Some(s@),
        None => None,
    }
}

/// The reader's state.
pub struct Reader {
    pub section: Section,
    pub part: Option<String>,
    pub net: Option<String>,
    pub points: Vec<String>,
    pub data: SchData,
}

impl View for Reader {
    type V = ParseState;

    open spec fn view(&self) -> ParseState {
        ParseState {
            section: self.section,
            part: opt_text(self.part),
            net: opt_text(self.net),
            points: strings_view(self.points@),
            model: self.data@,
        }
    }
}

pub fn header_section_exec(line: &Vec<char>) -> (r: Option<Section>)
    ensures
        r == header_section(line@),
{
    if starts_with_lit(line, "*PART*") {
        Some(Section::Part)
    } else if starts_with_lit(line, "*NET*") {
        Some(Section::Net)
    } else if starts_with_lit(line, "*CONNECTION*") {
        Some(Section::Connection)
    } else if starts_with_lit(line, "*SCH*") {
        Some(Section::Sch)
    } else if starts_with_lit(line, "*LINES*") {
        Some(Section::Lines)
    } else if starts_with_lit(line, "*") && !starts_with_lit(line, "*SIGNAL*") {
        Some(Section::Ignore)
    } else {
        None
    }
}

pub fn is_coord_exec(toks: &Vec<Vec<char>>) -> (b: bool)
    ensures
        b == is_coord(texts_of(toks@)),
{
    if toks.len() < 2 {
        return false;
    }
    let t0 = &toks[0];
    if float_literal(t0) {
        return true;
    }
    if t0.len() > 1 && t0[0] == '-' {
        let rest = copy_range(t0, 1, t0.len());
        assert(rest@ =~= t0@.drop_first());
        float_literal(&rest)
    } else {
        false
    }
}

fn pin_ok_exec(t: &Vec<char>) -> (b: bool)
    ensures
        b == pin_ok(t@),
{
    !eq_lit(t, "OPEN") && !starts_with_lit(t, "@@@")
}

/// Adds a part named `k` with no attributes, unless there is one.
pub fn parts_entry_or(parts: &mut Vec<Part>, k: String)
    ensures
        parts_view(final(parts)@) == entry_or(parts_view(old(parts)@), k@, seq![]),
{
    match find_part(parts, &k) {
        Some(_) => {},
        None => {
            let ghost kv = k@;
            let empty: Vec<Attr> = Vec::new();
            assert(attrs_view(empty@) =~= Seq::<(Text, Text)>::empty());
            parts.push(Part { designator: k, attrs: empty });
            assert(parts_view(parts@) =~= parts_view(old(parts)@).push((kv, seq![])));
        },
    }
}

/// Sets attribute `k` of part `pn` to `v`, if there is such a part.
pub fn parts_set_attr(parts: &mut Vec<Part>, pn: &String, k: String, v: String)
    ensures
        parts_view(final(parts)@) == set_part_attr(parts_view(old(parts)@), pn@, k@, v@),
{
    match find_part(parts, pn) {
        Some(i) => {
            let ghost kv = k@;
            let ghost vv = v@;
            attrs_insert(&mut parts[i].attrs, k, v);
            assert(parts_view(parts@) =~= parts_view(old(parts)@).update(
                i as int,
                (parts_view(old(parts)@)[i as int].0, assoc_insert(
                    parts_view(old(parts)@)[i as int].1,
                    kv,
                    vv,
                )),
            ));
        },
        None => {},
    }
}

/// Adds a net named `k` with no pins, unless there is one.
pub fn nets_entry_or(nets: &mut Vec<Net>, k: String)
    ensures
        nets_view(final(nets)@) == entry_or(nets_view(old(nets)@), k@, seq![]),
{
    match find_net(nets, &k) {
        Some(_) => {},
        None => {
            let ghost kv = k@;
            let empty: Vec<String> = Vec::new();
            assert(strings_view(empty@) =~= Seq::<Text>::empty());
            nets.push(Net { name: k, pins: empty });
            assert(nets_view(nets@) =~= nets_view(old(nets)@).push((kv, seq![])));
        },
    }
}

/// Net `n` gains `pin` at the end, unless it has it already.
pub fn nets_add_pin(nets: &mut Vec<Net>, n: &String, pin: String)
    ensures
        nets_view(final(nets)@) == net_add_pin(nets_view(old(nets)@), n@, pin@),
{
    match find_net(nets, n) {
        Some(i) => {
            if !contains_string(&nets[i].pins, &pin) {
                let ghost pv = pin@;
                nets[i].pins.push(pin);
                assert(strings_view(nets@[i as int].pins@) =~= strings_view(
                    old(nets)@[i as int].pins@,
                ).push(pv));
                assert(nets_view(nets@) =~= nets_view(old(nets)@).update(
                    i as int,
                    (nets_view(old(nets)@)[i as int].0, nets_view(old(nets)@)[i as int].1.push(pv)),
                ));
            }
        },
        None => {},
    }
}

impl Reader {
    pub fn new() -> (r: Reader)
        ensures
            r@ == init_state(),
            r.points.len() == 0,
    {
        let r = Reader {
            section: Section::Start,
            part: None,
            net: None,
            points: Vec::new(),
            data: SchData { parts: Vec::new(), nets: Vec::new(), lines: Vec::new() },
        };
        assert(r@.points =~= Seq::<Text>::empty());
        assert(r@.model.parts =~= Seq::<PartV>::empty());
        assert(r@.model.nets =~= Seq::<NetV>::empty());
        assert(r@.model.lines =~= Seq::<SegV>::empty());
        r
    }

    /// The polyline collected so far becomes segments.
    pub fn flush(&mut self)
        requires
            old(self).points.len() % 2 == 0,
        ensures
            final(self)@ == flush(old(self)@),
            final(self).points.len() == 0,
    {
        let n = self.points.len();
        let ghost pts = strings_view(self.points@);
        let ghost old_lines = self.data@.lines;
        if n >= 4 {
            let mut i: usize = 0;
            let ghost mut c: int = 0;
            while i + 2 < n
                invariant
                    n == self.points.len(),
                    n % 2 == 0,
                    n >= 4,
                    i == 2 * c,
                    i + 2 <= n,
                    pts == strings_view(self.points@),
                    segs_view(self.data.lines@) == old_lines + segments(pts).take(c),
                    self.section == old(self).section,
                    self.part == old(self).part,
                    self.net == old(self).net,
                    self.points == old(self).points,
                    self.data.parts == old(self).data.parts,
                    self.data.nets == old(self).data.nets,
                decreases n - i,
            {
                let seg = Segment {
                    x1: self.points[i].clone(),
                    y1: self.points[i + 1].clone(),
                    x2: self.points[i + 2].clone(),
                    y2: self.points[i + 3].clone(),
                };
                let ghost sv = seg@;
                let ghost old_l = self.data.lines@;
                self.data.lines.push(seg);
                proof {
                    assert(sv == segments(pts)[c]);
                    assert(segments(pts).take(c + 1) =~= segments(pts).take(c).push(sv));
                    assert(segs_view(self.data.lines@) =~= segs_view(old_l).push(sv));
                }
                i += 2;
                proof {
                    c = c + 1;
                }
            }
            assert(c == (n - 2) / 2);
            assert(segments(pts).take(c) =~= segments(pts));
        } else {
            assert(segments(pts) =~= Seq::<SegV>::empty());
            assert(old_lines + segments(pts) =~= old_lines);
        }
        self.points = Vec::new();
        assert(strings_view(self.points@) =~= Seq::<Text>::empty());
    }

    fn add_point(&mut self, toks: &Vec<Vec<char>>)
        requires
            toks.len() >= 2,
            old(self).points.len() % 2 == 0,
        ensures
            final(self)@ == add_point(old(self)@, texts_of(toks@)),
            final(self).points.len() % 2 == 0,
    {
        if float_literal(&toks[0]) && float_literal(&toks[1]) {
            let x = string_of_all(&toks[0]);
            let y = string_of_all(&toks[1]);
            let ghost xv = x@;
            let ghost yv = y@;
            self.points.push(x);
            self.points.push(y);
            assert(strings_view(self.points@) =~= strings_view(old(self).points@).push(xv).push(yv));
        }
    }

    fn net_step(&mut self, line: &Vec<char>, toks: &Vec<Vec<char>>, coord: bool)
        requires
            old(self).points.len() % 2 == 0,
            coord == is_coord(texts_of(toks@)),
            toks.len() >= 1,
        ensures
            final(self)@ == net_step(old(self)@, line@, texts_of(toks@), coord),
            final(self).points.len() % 2 == 0,
    {
        if starts_with_lit(line, "*SIGNAL* ") {
            self.flush();
            if toks.len() >= 2 {
                let name = string_of_all(&toks[1]);
                let name2 = string_of_all(&toks[1]);
                self.net = Some(name);
                nets_entry_or(&mut self.data.nets, name2);
            }
        } else if !starts_with_lit(line, "*") {
            if coord {
                self.add_point(toks);
            } else {
                self.flush();
                match &self.net {
                    Some(n) => {
                        let n = n.clone();
                        if pin_ok_exec(&toks[0]) {
                            let p = string_of_all(&toks[0]);
                            nets_add_pin(&mut self.data.nets, &n, p);
                        }
                        if toks.len() > 1 && pin_ok_exec(&toks[1]) {
                            let p = string_of_all(&toks[1]);
                            nets_add_pin(&mut self.data.nets, &n, p);
                        }
                    },
                    None => {},
                }
            }
        }
    }

    fn quoted_attr(&mut self, pn: &String, line: &Vec<char>)
        requires
            line.len() >= 1,
        ensures
            final(self)@ == quoted_attr(old(self)@, pn@, line@),
            final(self).points == old(self).points,
    {
        let q = find_char_from(line, 1, '"');
        if q < line.len() {
            let key = string_of(line, 1, q);
            match find_part(&self.data.parts, pn) {
                Some(i) => {
                    if find_attr(&self.data.parts[i].attrs, &key).is_some() {
                        return;
                    }
                },
                None => {},
            }
            let after = copy_range(line, q + 1, line.len());
            assert(after@ =~= line@.skip(q + 1));
            let t = trim_vec(&after, false);
            let v = trim_vec(&t, true);
            let value = string_of_all(&v);
            parts_set_attr(&mut self.data.parts, pn, key, value);
        }
    }

    fn set_xy(&mut self, pn: &String, toks: &Vec<Vec<char>>)
        requires
            toks.len() >= 2,
        ensures
            final(self)@ == set_xy(old(self)@, pn@, texts_of(toks@)),
            final(self).points == old(self).points,
    {
        match find_part(&self.data.parts, pn) {
            Some(i) => {
                let xk = String::from_str("x");
                if find_attr(&self.data.parts[i].attrs, &xk).is_none() {
                    let x = string_of_all(&toks[0]);
                    let y = string_of_all(&toks[1]);
                    let yk = String::from_str("y");
                    let ghost a0 = attrs_view(self.data.parts@[i as int].attrs@);
                    let ghost xv = x@;
                    let ghost yv = y@;
                    attrs_insert(&mut self.data.parts[i].attrs, xk, x);
                    attrs_insert(&mut self.data.parts[i].attrs, yk, y);
                    assert(parts_view(self.data.parts@) =~= parts_view(old(self).data.parts@).update(
                        i as int,
                        (
                            parts_view(old(self).data.parts@)[i as int].0,
                            assoc_insert(assoc_insert(a0, "x"@, xv), "y"@, yv),
                        ),
                    ));
                }
            },
            None => {},
        }
    }

    fn define_step(&mut self, line: &Vec<char>, toks: &Vec<Vec<char>>)
        requires
            toks.len() >= 1,
        ensures
            final(self)@ == define_step(old(self)@, line@, texts_of(toks@)),
            final(self).points == old(self).points,
    {
        if self.section == Section::Part && toks[0].len() > 0 && is_ascii_alpha_char(toks[0][0])
            && toks.len() >= 2 && !starts_with_lit(line, "PART ") {
            let d = string_of_all(&toks[0]);
            let spec_tok = &toks[1];
            parts_entry_or(&mut self.data.parts, d.clone());
            let at = find_char_from(spec_tok, 0, '@');
            assert(spec_tok@.skip(0) =~= spec_tok@);
            let device = string_of(spec_tok, 0, at);
            assert(spec_tok@.subrange(0, at as int) =~= device_of(spec_tok@));
            parts_set_attr(&mut self.data.parts, &d, String::from_str("Device"), device);
            if at < spec_tok.len() {
                let end = find_char_from(spec_tok, at + 1, '@');
                let fp = string_of(spec_tok, at + 1, end);
                assert(spec_tok@.subrange(at + 1, end as int) =~= spec_tok@.skip(at + 1).take(
                    lead_while(spec_tok@.skip(at + 1), other_than('@')) as int,
                ));
                parts_set_attr(&mut self.data.parts, &d, String::from_str("Footprint"), fp);
            }
            self.part = Some(d);
        }
    }

    fn part_record(&mut self, toks: &Vec<Vec<char>>)
        ensures
            final(self)@ == part_record(old(self)@, texts_of(toks@)),
            final(self).points == old(self).points,
    {
        if toks.len() >= 2 {
            let d = string_of_all(&toks[1]);
            parts_entry_or(&mut self.data.parts, d.clone());
            if toks.len() >= 4 && float_literal(&toks[2]) && float_literal(&toks[3]) {
                parts_set_attr(&mut self.data.parts, &d, String::from_str("x"), string_of_all(&toks[2]));
                parts_set_attr(&mut self.data.parts, &d, String::from_str("y"), string_of_all(&toks[3]));
            }
            self.part = Some(d);
        } else {
            self.part = None;
        }
    }

    fn part_step(&mut self, line: &Vec<char>, toks: &Vec<Vec<char>>, coord: bool)
        requires
            coord == is_coord(texts_of(toks@)),
            toks.len() >= 1,
            line.len() >= 1,
        ensures
            final(self)@ == part_step(old(self)@, line@, texts_of(toks@), coord),
            final(self).points == old(self).points,
    {
        match &self.part {
            Some(pn) => {
                let pn = pn.clone();
                if starts_with_lit(line, "\"") {
                    self.quoted_attr(&pn, line);
                } else if coord {
                    self.set_xy(&pn, toks);
                } else {
                    self.define_step(line, toks);
                }
            },
            None => {
                self.define_step(line, toks);
            },
        }
    }

    fn body_step(&mut self, line: &Vec<char>, toks: &Vec<Vec<char>>)
        requires
            old(self).points.len() % 2 == 0,
            toks.len() >= 1,
            line.len() >= 1,
        ensures
            final(self)@ == body_step(old(self)@, line@, texts_of(toks@)),
            final(self).points.len() % 2 == 0,
    {
        let coord = is_coord_exec(toks);
        if self.section == Section::Lines {
            if coord {
                self.add_point(toks);
            } else {
                self.flush();
            }
        } else if self.section == Section::Connection || self.section == Section::Net {
            self.net_step(line, toks, coord);
        } else if starts_with_lit(line, "TEXT") || starts_with_lit(line, "OPEN") || starts_with_lit(
            line,
            "LINE",
        ) || starts_with_lit(line, "BORDER") {
            self.part = None;
        } else if starts_with_lit(line, "PART ") {
            self.part_record(toks);
        } else {
            self.part_step(line, toks, coord);
        }
    }

    /// Reads one line.
    pub fn feed(&mut self, raw: &Vec<char>)
        requires
            old(self).points.len() % 2 == 0,
        ensures
            final(self)@ == step(old(self)@, raw@),
            final(self).points.len() % 2 == 0,
    {
        let line = trim_vec(raw, false);
        if line.len() == 0 {
            return ;
        }
        match header_section_exec(&line) {
            Some(sec) => {
                self.section = sec;
                self.part = None;
            },
            None => {
                let toks = split_ws_vec(&line);
                if toks.len() == 0 {
                    return ;
                }
                self.body_step(&line, &toks);
            },
        }
    }
}

fn vec_contains_char(v: &Vec<char>, c: char) -> (b: bool)
    ensures
        b == v@.contains(c),
{
    let mut i: usize = 0;
    while i < v.len()
        invariant
            i <= v.len(),
            forall|j: int| 0 <= j < i ==> v@[j] != c,
        decreases v.len() - i,
    {
        if v[i] == c {
            assert(v@[i as int] == c);
            return true;
        }
        i += 1;
    }
    false
}

/// [`keep_part`], computed.
pub fn keep_part_exec(p: &Part) -> (b: bool)
    ensures
        b == keep_part(p@),
{
    let d = chars_of(p.designator.as_str());
    if vec_contains_char(&d, '"') || vec_contains_char(&d, '-') {
        return false;
    }
    find_attr(&p.attrs, &String::from_str("x")).is_some() || find_attr(
        &p.attrs,
        &String::from_str("Device"),
    ).is_some()
}

/// Keeps the parts that [`keep_part`] accepts, in order.
pub fn retain_parts(parts: Vec<Part>) -> (r: Vec<Part>)
    ensures
        parts_view(r@) == parts_view(parts@).filter(keep_part_pred()),
{
    let ghost all = parts_view(parts@);
    let n = parts.len();
    let mut src = parts;
    let mut rev: Vec<Part> = Vec::new();
    while src.len() > 0
        invariant
            src.len() + rev.len() == n,
            n == all.len(),
            forall|j: int| 0 <= j < src.len() ==> (#[trigger] src@[j])@ == all[j],
            forall|j: int| 0 <= j < rev.len() ==> (#[trigger] rev@[j])@ == all[n - 1 - j],
        decreases src.len(),
    {
        let p = src.pop().unwrap();
        rev.push(p);
    }
    let mut out: Vec<Part> = Vec::new();
    let mut i: usize = 0;
    while rev.len() > 0
        invariant
            i + rev.len() == n,
            n == all.len(),
            forall|j: int| 0 <= j < rev.len() ==> (#[trigger] rev@[j])@ == all[n - 1 - j],
            parts_view(out@) == all.take(i as int).filter(keep_part_pred()),
        decreases rev.len(),
    {
        let p = rev.pop().unwrap();
        let ghost pv = p@;
        let ghost before = parts_view(out@);
        assert(pv == all[i as int]);
        assert(all.take(i + 1).drop_last() =~= all.take(i as int));
        assert(all.take(i + 1).last() == pv);
        reveal(Seq::filter);
        if keep_part_exec(&p) {
            out.push(p);
            assert(parts_view(out@) =~= before.push(pv));
        }
        i += 1;
    }
    assert(all.take(n as int) =~= all);
    out
}

/// Reads a schematic file's text.
pub fn parse_sch_txt_content(content: &str) -> (data: SchData)
    ensures
        data@ == parse_model(content@),
        model_ok(data@),
        forall|i: int| 0 <= i < data@.parts.len() ==> keep_part(#[trigger] data@.parts[i]),
{
    proof {
        lemma_parse_model_ok(content@);
    }
    let chars = chars_of(content);
    let n = chars.len();
    let ghost target = run_text(init_state(), chars@);
    let mut r = Reader::new();
    let mut pos: usize = 0;
    let mut done = false;
    assert(chars@.skip(0) =~= chars@);
    while !done
        invariant
            pos <= n == chars.len(),
            !done ==> run_text(r@, chars@.skip(pos as int)) == target,
            done ==> r@ == target,
            r.points.len() % 2 == 0,
        decreases n - pos + (if done {
            0int
        } else {
            1int
        }),
    {
        let k = find_char_from(&chars, pos, '\n');
        let line = copy_range(&chars, pos, k);
        proof {
            let s = chars@.skip(pos as int);
            assert(s.take(k - pos) =~= line@);
            if k < n {
                assert(s.skip(k - pos + 1) =~= chars@.skip(k + 1));
            }
        }
        r.feed(&line);
        if k < n {
            pos = k + 1;
        } else {
            done = true;
        }
    }
    r.flush();
    let parts = retain_parts(r.data.parts);
    SchData { parts, nets: r.data.nets, lines: r.data.lines }
}

} // verus!
