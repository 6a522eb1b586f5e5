//! Edits of a schematic (rename a part, move it, clear or extend nets) and
//! the rewrite of a GBK file's bytes that each edit makes.
use vstd::prelude::*;
use crate::text::Text;
use crate::model::{
    Part, SchData, SchModel, PartV, NetV, parts_view, nets_view, key_index, lookup, assoc_insert,
    assoc_remove, entry_or, find_part, attrs_insert, attrs_get, attrs_view, lemma_key_index, has_key,
    as_map, keys_unique, lemma_assoc_insert, lemma_assoc_remove, lemma_entry_or, lemma_same_keys,
    lemma_update_keeps_others, lemma_push_keeps_others, lemma_lookup_map,
};
use crate::parse::{parse_model, parse_sch_txt_content, net_add_pin, nets_entry_or, nets_add_pin};
use crate::format::{format_model, format_sch_content, attr_or};
use crate::gbk::{gbk_decode, gbk_encode, decode_gbk, encode_gbk, decodable, encodable};

verus! {

/// Part `old_id` is renamed `new_id` and its device set to `dev`; a part that
/// was already called `new_id` is replaced.  Nothing changes when there is
/// no part `old_id`.
pub open spec fn update_component_model(m: SchModel, old_id: Text, new_id: Text, dev: Text) -> SchModel {
    let i = key_index(m.parts, old_id);
    if i >= 0 {
        let attrs = assoc_insert(m.parts[i].1, "Device"@, dev);
        SchModel {
            parts: assoc_insert(assoc_remove(m.parts, old_id), new_id, attrs),
            nets: m.nets,
            lines: m.lines,
        }
    } else {
        m
    }
}

/// Part `id` gets attributes `x` and `y`.  Nothing changes when there is no
/// part `id`.
pub open spec fn update_position_model(m: SchModel, id: Text, x: Text, y: Text) -> SchModel {
    let i = key_index(m.parts, id);
    if i >= 0 {
        let attrs = assoc_insert(assoc_insert(m.parts[i].1, "x"@, x), "y"@, y);
        SchModel { parts: m.parts.update(i, (m.parts[i].0, attrs)), nets: m.nets, lines: m.lines }
    } else {
        m
    }
}

/// All nets removed.
pub open spec fn clear_nets_model(m: SchModel) -> SchModel {
    SchModel { parts: m.parts, nets: seq![], lines: m.lines }
}

/// Net `net` (created when missing) gains `pin`, unless it has it.
pub open spec fn add_net_pin_model(m: SchModel, net: Text, pin: Text) -> SchModel {
    SchModel { parts: m.parts, nets: net_add_pin(entry_or(m.nets, net, seq![]), net, pin), lines: m.lines }
}


/// Renaming keeps the model well formed; the part map loses `old_id` and
/// maps `new_id` to the old attributes with `Device` set to `dev`.
pub proof fn lemma_update_component(m: SchModel, old_id: Text, new_id: Text, dev: Text)
    requires
        m.wf(),
    ensures
        update_component_model(m, old_id, new_id, dev).wf(),
        update_component_model(m, old_id, new_id, dev).nets == m.nets,
        update_component_model(m, old_id, new_id, dev).lines == m.lines,
        has_key(m.parts, old_id) ==> as_map(update_component_model(m, old_id, new_id, dev).parts)
            == as_map(m.parts).remove(old_id).insert(
            new_id,
            assoc_insert(as_map(m.parts)[old_id], "Device"@, dev),
        ),
        has_key(m.parts, old_id) ==> lookup(
            lookup(update_component_model(m, old_id, new_id, dev).parts, new_id).unwrap(),
            "Device"@,
        ) == Some(dev),
        !has_key(m.parts, old_id) ==> update_component_model(m, old_id, new_id, dev) == m,
{
    let i = key_index(m.parts, old_id);
    lemma_key_index(m.parts, old_id);
    if i >= 0 {
        let attrs = assoc_insert(m.parts[i].1, "Device"@, dev);
        lemma_assoc_insert(m.parts[i].1, "Device"@, dev);
        let removed = assoc_remove(m.parts, old_id);
        lemma_assoc_remove(m.parts, old_id);
        let r = assoc_insert(removed, new_id, attrs);
        lemma_assoc_insert(removed, new_id, attrs);
        lemma_key_index(r, new_id);
        assert forall|j: int| 0 <= j < removed.len() implies keys_unique(#[trigger] removed[j].1) by {
            let j2 = if j < i { j } else { j + 1 };
            assert(removed[j] == m.parts[j2]);
        }
        assert forall|j: int| 0 <= j < r.len() implies keys_unique(#[trigger] r[j].1) by {
            lemma_key_index(removed, new_id);
            if j < removed.len() && r[j] != removed[j] {
                assert(r[j].1 == attrs);
            } else if j >= removed.len() {
                assert(r[j].1 == attrs);
            }
        }
        assert(lookup(r, new_id) == Some(attrs)) by {
            assert(as_map(r)[new_id] == attrs);
        }
        assert(has_key(attrs, "Device"@));
        lemma_key_index(attrs, "Device"@);
        assert(as_map(attrs)["Device"@] == dev);
    }
}

/// Moving keeps the model well formed, sets the part's `x` and `y`, keeps
/// the set of part names, and leaves the nets and segments as they were.
pub proof fn lemma_update_position(m: SchModel, id: Text, x: Text, y: Text)
    requires
        m.wf(),
    ensures
        update_position_model(m, id, x, y).wf(),
        has_key(m.parts, id) ==> {
            let a = lookup(update_position_model(m, id, x, y).parts, id).unwrap();
            &&& lookup(a, "x"@) == Some(x)
            &&& lookup(a, "y"@) == Some(y)
        },
        as_map(update_position_model(m, id, x, y).parts).dom() == as_map(m.parts).dom(),
        update_position_model(m, id, x, y).nets == m.nets,
        update_position_model(m, id, x, y).lines == m.lines,
{
    let i = key_index(m.parts, id);
    lemma_key_index(m.parts, id);
    if i >= 0 {
        let a1 = assoc_insert(m.parts[i].1, "x"@, x);
        lemma_assoc_insert(m.parts[i].1, "x"@, x);
        let a2 = assoc_insert(a1, "y"@, y);
        lemma_assoc_insert(a1, "y"@, y);
        let r = update_position_model(m, id, x, y).parts;
        assert forall|j: int| 0 <= j < r.len() implies r[j].0 == m.parts[j].0 by {}
        assert forall|k: Text| key_index(r, k) == key_index(m.parts, k) by {
            lemma_same_keys(r, m.parts, k);
        }
        assert forall|j: int| 0 <= j < r.len() implies keys_unique(#[trigger] r[j].1) by {
            if j != i {
                assert(r[j] == m.parts[j]);
            }
        }
        assert(lookup(r, id) == Some(a2));
        assert(as_map(a2)["y"@] == y);
        reveal_strlit("x");
        reveal_strlit("y");
        assert("x"@[0] != "y"@[0]);
        assert("x"@ != "y"@);
        assert(as_map(a2)["x"@] == x) by {
            assert(as_map(a1)["x"@] == x);
        }
        assert(as_map(a1).contains_key("x"@));
        assert(as_map(a2).contains_key("x"@));
        assert(has_key(a2, "x"@));
        assert(lookup(a2, "x"@) == Some(x));
        assert(lookup(a2, "y"@) == Some(y));
        assert(as_map(r).dom() =~= as_map(m.parts).dom());
    }
}

/// Adding a pin keeps the model well formed; afterwards the net exists and
/// lists the pin.
pub proof fn lemma_add_net_pin(m: SchModel, net: Text, pin: Text)
    requires
        m.wf(),
    ensures
        add_net_pin_model(m, net, pin).wf(),
        has_key(add_net_pin_model(m, net, pin).nets, net),
        lookup(add_net_pin_model(m, net, pin).nets, net).unwrap().contains(pin),
        add_net_pin_model(m, net, pin).parts == m.parts,
{
    let n1 = entry_or(m.nets, net, seq![]);
    lemma_entry_or(m.nets, net, seq![]);
    lemma_key_index(n1, net);
    let i = key_index(n1, net);
    assert forall|j: int| 0 <= j < n1.len() implies (#[trigger] n1[j].1).no_duplicates() by {
        if j < m.nets.len() {
            assert(n1[j] == m.nets[j]);
        }
    }
    let r = net_add_pin(n1, net, pin);
    assert forall|j: int| 0 <= j < r.len() implies r[j].0 == n1[j].0 by {}
    assert forall|k: Text| key_index(r, k) == key_index(n1, k) by {
        lemma_same_keys(r, n1, k);
    }
    let ps = n1[i].1;
    if !ps.contains(pin) {
        let q = ps.push(pin);
        assert(q[q.len() - 1] == pin);
        assert forall|a: int, b: int| 0 <= a < q.len() && 0 <= b < q.len() && a != b implies q[a] != q[b] by {
            if a < ps.len() && b < ps.len() {
                assert(ps[a] != ps[b]);
            } else if a < ps.len() {
                assert(ps.contains(ps[a]));
            } else if b < ps.len() {
                assert(ps.contains(ps[b]));
            }
        }
    }
    assert forall|j: int| 0 <= j < r.len() implies (#[trigger] r[j].1).no_duplicates() by {
        if j != i {
            assert(r[j] == n1[j]);
        }
    }
}

/// Moving part `id` changes no other part: under every other name the
/// parts hold what they held.
pub proof fn lemma_update_position_others(m: SchModel, id: Text, x: Text, y: Text, k: Text)
    requires
        k != id,
    ensures
        lookup(update_position_model(m, id, x, y).parts, k) == lookup(m.parts, k),
{
    lemma_key_index(m.parts, id);
    let i = key_index(m.parts, id);
    if i >= 0 {
        lemma_update_keeps_others(
            m.parts,
            i,
            id,
            assoc_insert(assoc_insert(m.parts[i].1, "x"@, x), "y"@, y),
            k,
        );
    }
}

/// Adding a pin to net `net` changes no other net: under every other name
/// the nets hold what they held.
pub proof fn lemma_add_net_pin_others(m: SchModel, net: Text, pin: Text, k: Text)
    requires
        k != net,
    ensures
        lookup(add_net_pin_model(m, net, pin).nets, k) == lookup(m.nets, k),
{
    let n1 = entry_or(m.nets, net, seq![]);
    lemma_key_index(m.nets, net);
    if key_index(m.nets, net) < 0 {
        lemma_push_keeps_others(m.nets, net, Seq::<Text>::empty(), k);
    }
    lemma_key_index(n1, net);
    let i = key_index(n1, net);
    if i >= 0 && !n1[i].1.contains(pin) {
        lemma_update_keeps_others(n1, i, net, n1[i].1.push(pin), k);
    }
}

/// Net `net` after adding `pin`: the pins it had (none when there was no
/// such net), followed by `pin` unless it was among them.
pub proof fn lemma_add_net_pin_named(m: SchModel, net: Text, pin: Text)
    ensures
        lookup(add_net_pin_model(m, net, pin).nets, net) == Some(
            {
                let before = match lookup(m.nets, net) {
                    Some(ps) => ps,
                    None => Seq::<Text>::empty(),
                };
                if before.contains(pin) {
                    before
                } else {
                    before.push(pin)
                }
            },
        ),
{
    let n1 = entry_or(m.nets, net, seq![]);
    lemma_key_index(m.nets, net);
    if key_index(m.nets, net) < 0 {
        crate::model::lemma_key_index_is(n1, net, m.nets.len() as int);
    }
    lemma_key_index(n1, net);
    let i = key_index(n1, net);
    assert(n1[i].1 == match lookup(m.nets, net) {
        Some(ps) => ps,
        None => Seq::<Text>::empty(),
    });
    let r = net_add_pin(n1, net, pin);
    assert forall|j: int| 0 <= j < r.len() implies r[j].0 == n1[j].0 by {}
    lemma_same_keys(r, n1, net);
}

/// Renaming part `old_id` to `new_id` changes no other part: under every
/// name but those two the parts hold what they held.
pub proof fn lemma_update_component_others(m: SchModel, old_id: Text, new_id: Text, dev: Text, k: Text)
    requires
        m.wf(),
        k != old_id,
        k != new_id,
    ensures
        lookup(update_component_model(m, old_id, new_id, dev).parts, k) == lookup(m.parts, k),
{
    lemma_update_component(m, old_id, new_id, dev);
    lemma_lookup_map(update_component_model(m, old_id, new_id, dev).parts, k);
    lemma_lookup_map(m.parts, k);
}

/// Adding the same pin twice is adding it once.
pub proof fn lemma_add_net_pin_idempotent(m: SchModel, net: Text, pin: Text)
    ensures
        add_net_pin_model(add_net_pin_model(m, net, pin), net, pin) == add_net_pin_model(m, net, pin),
{
    let n1 = entry_or(m.nets, net, seq![]);
    lemma_entry_or_keys(m.nets, net);
    lemma_key_index(n1, net);
    let i = key_index(n1, net);
    let r = net_add_pin(n1, net, pin);
    assert forall|k: Text| key_index(r, k) == key_index(n1, k) by {
        lemma_same_keys(r, n1, k);
    }
    assert(entry_or(r, net, seq![]) == r);
    assert(r[i].1.contains(pin)) by {
        if !n1[i].1.contains(pin) {
            assert(r[i].1[r[i].1.len() - 1] == pin);
        }
    }
}

/// `entry_or` always leaves an entry for the key.
proof fn lemma_entry_or_keys(m: Seq<(Text, Seq<Text>)>, k: Text)
    ensures
        has_key(entry_or(m, k, seq![]), k),
{
    lemma_key_index(m, k);
    if key_index(m, k) < 0 {
        crate::model::lemma_key_index_is(entry_or(m, k, seq![]), k, m.len() as int);
    }
}

impl SchData {
    pub fn update_component(&mut self, old_id: &str, new_id: &str, new_device: &str)
        ensures
            final(self)@ == update_component_model(old(self)@, old_id@, new_id@, new_device@),
            old(self)@.wf() ==> final(self)@.wf(),
    {
        proof {
            if old(self)@.wf() {
                lemma_update_component(old(self)@, old_id@, new_id@, new_device@);
            }
        }
        let oid = String::from_str(old_id);
        match find_part(&self.parts, &oid) {
            Some(i) => {
                let ghost m = old(self)@;
                let ghost attrs = assoc_insert(m.parts[i as int].1, "Device"@, new_device@);
                let mut part = self.parts.remove(i);
                assert(parts_view(self.parts@) =~= assoc_remove(m.parts, old_id@));
                attrs_insert(&mut part.attrs, String::from_str("Device"), String::from_str(new_device));
                assert(attrs_view(part.attrs@) == attrs);
                let ghost removed = parts_view(self.parts@);
                let nid = String::from_str(new_id);
                match find_part(&self.parts, &nid) {
                    Some(j) => {
                        proof {
                            lemma_key_index(removed, new_id@);
                        }
                        self.parts[j].attrs = part.attrs;
                        assert(parts_view(self.parts@) =~= removed.update(j as int, (new_id@, attrs)));
                    },
                    None => {
                        part.designator = nid;
                        self.parts.push(part);
                        assert(parts_view(self.parts@) =~= removed.push((new_id@, attrs)));
                    },
                }
            },
            None => {},
        }
    }

    pub fn update_position(&mut self, id: &str, x: &str, y: &str)
        ensures
            final(self)@ == update_position_model(old(self)@, id@, x@, y@),
            old(self)@.wf() ==> final(self)@.wf(),
            forall|k: Text| k != id@ ==> #[trigger] lookup(final(self)@.parts, k) == lookup(old(self)@.parts, k),
            final(self)@.nets == old(self)@.nets,
    {
        proof {
            assert forall|k: Text| k != id@ implies #[trigger] lookup(
                update_position_model(old(self)@, id@, x@, y@).parts,
                k,
            ) == lookup(old(self)@.parts, k) by {
                lemma_update_position_others(old(self)@, id@, x@, y@, k);
            }
        }
        proof {
            if old(self)@.wf() {
                lemma_update_position(old(self)@, id@, x@, y@);
            }
        }
        let pid = String::from_str(id);
        match find_part(&self.parts, &pid) {
            Some(i) => {
                let ghost m = old(self)@;
                attrs_insert(&mut self.parts[i].attrs, String::from_str("x"), String::from_str(x));
                attrs_insert(&mut self.parts[i].attrs, String::from_str("y"), String::from_str(y));
                assert(parts_view(self.parts@) =~= m.parts.update(
                    i as int,
                    (m.parts[i as int].0, assoc_insert(
                        assoc_insert(m.parts[i as int].1, "x"@, x@),
                        "y"@,
                        y@,
                    )),
                ));
            },
            None => {},
        }
    }

    pub fn clear_all_nets(&mut self)
        ensures
            final(self)@ == clear_nets_model(old(self)@),
            old(self)@.wf() ==> final(self)@.wf(),
    {
        self.nets = Vec::new();
        assert(nets_view(self.nets@) =~= Seq::<NetV>::empty());
    }

    pub fn add_net_pin(&mut self, net: &str, pin: &str)
        ensures
            final(self)@ == add_net_pin_model(old(self)@, net@, pin@),
            old(self)@.wf() ==> final(self)@.wf(),
            forall|k: Text| k != net@ ==> #[trigger] lookup(final(self)@.nets, k) == lookup(old(self)@.nets, k),
            final(self)@.parts == old(self)@.parts,
    {
        proof {
            assert forall|k: Text| k != net@ implies #[trigger] lookup(
                add_net_pin_model(old(self)@, net@, pin@).nets,
                k,
            ) == lookup(old(self)@.nets, k) by {
                lemma_add_net_pin_others(old(self)@, net@, pin@, k);
            }
            lemma_add_net_pin_named(old(self)@, net@, pin@);
        }
        proof {
            if old(self)@.wf() {
                lemma_add_net_pin(old(self)@, net@, pin@);
            }
        }
        nets_entry_or(&mut self.nets, String::from_str(net));
        nets_add_pin(&mut self.nets, &String::from_str(net), String::from_str(pin));
    }
}

/// What `get_full_data` reports of a part; coordinates stay text.
pub struct PartSummary {
    pub designator: String,
    pub device: String,
    pub footprint: String,
    pub x: Option<String>,
    pub y: Option<String>,
}

pub open spec fn opt_view(o: Option<String>) -> Option<Text> {
    match o {
        Some(s) => Some(s@),
        None => None,
    }
}

/// A part's designator, device and footprint (empty when unset) and its
/// coordinates when set.
pub fn part_summary(p: &Part) -> (r: PartSummary)
    ensures
        r.designator@ == p@.0,
        r.device@ == attr_or(p@.1, "Device"@, ""@),
        r.footprint@ == attr_or(p@.1, "Footprint"@, ""@),
        opt_view(r.x) == lookup(p@.1, "x"@),
        opt_view(r.y) == lookup(p@.1, "y"@),
{
    let device = match attrs_get(&p.attrs, &String::from_str("Device")) {
        Some(v) => v,
        None => String::from_str(""),
    };
    let footprint = match attrs_get(&p.attrs, &String::from_str("Footprint")) {
        Some(v) => v,
        None => String::from_str(""),
    };
    PartSummary {
        designator: p.designator.clone(),
        device,
        footprint,
        x: attrs_get(&p.attrs, &String::from_str("x")),
        y: attrs_get(&p.attrs, &String::from_str("y")),
    }
}

/// Reads a schematic from its GBK bytes.
pub fn read_sch_bytes(bytes: &[u8]) -> (r: SchData)
    requires
        decodable(bytes@),
    ensures
        r@ == parse_model(gbk_decode(bytes@)),
{
    let text = decode_gbk(bytes);
    parse_sch_txt_content(text.as_str())
}

/// The text of a schematic after `update_component`.
pub fn update_component_text(content: &str, old_id: &str, new_id: &str, new_device: &str) -> (r: String)
    ensures
        r@ == format_model(update_component_model(parse_model(content@), old_id@, new_id@, new_device@)),
{
    let mut data = parse_sch_txt_content(content);
    data.update_component(old_id, new_id, new_device);
    format_sch_content(&data)
}

/// The text of a schematic after `update_position`.
pub fn update_position_text(content: &str, id: &str, x: &str, y: &str) -> (r: String)
    ensures
        r@ == format_model(update_position_model(parse_model(content@), id@, x@, y@)),
{
    let mut data = parse_sch_txt_content(content);
    data.update_position(id, x, y);
    format_sch_content(&data)
}

/// The text of a schematic after `clear_all_nets`.
pub fn clear_all_nets_text(content: &str) -> (r: String)
    ensures
        r@ == format_model(clear_nets_model(parse_model(content@))),
{
    let mut data = parse_sch_txt_content(content);
    data.clear_all_nets();
    format_sch_content(&data)
}

/// The text of a schematic after `add_net_pin`.
pub fn add_net_pin_text(content: &str, net: &str, pin: &str) -> (r: String)
    ensures
        r@ == format_model(add_net_pin_model(parse_model(content@), net@, pin@)),
{
    let mut data = parse_sch_txt_content(content);
    data.add_net_pin(net, pin);
    format_sch_content(&data)
}

/// The rewritten text in GBK, or `None` when it is too long to encode.
fn encode_rewritten(out: String) -> (r: Option<Vec<u8>>)
    ensures
        match r {
            Some(b) => encodable(out@) && b@ == gbk_encode(out@),
            None => !encodable(out@),
        },
{
    if out.as_str().unicode_len() <= usize::MAX / 128 {
        Some(encode_gbk(out.as_str()))
    } else {
        None
    }
}

/// A GBK schematic file's new bytes after `update_component`; `None` when
/// the rewritten text is too long to encode.
pub fn update_component_bytes(bytes: &[u8], old_id: &str, new_id: &str, new_device: &str) -> (r: Option<Vec<u8>>)
    requires
        decodable(bytes@),
    ensures
        ({
            let t = format_model(update_component_model(parse_model(gbk_decode(bytes@)), old_id@, new_id@, new_device@));
            match r {
                Some(b) => encodable(t) && b@ == gbk_encode(t),
                None => !encodable(t),
            }
        }),
{
    let text = decode_gbk(bytes);
    encode_rewritten(update_component_text(text.as_str(), old_id, new_id, new_device))
}

/// A GBK schematic file's new bytes after `update_position`; `None` when
/// the rewritten text is too long to encode.
pub fn update_position_bytes(bytes: &[u8], id: &str, x: &str, y: &str) -> (r: Option<Vec<u8>>)
    requires
        decodable(bytes@),
    ensures
        ({
            let t = format_model(update_position_model(parse_model(gbk_decode(bytes@)), id@, x@, y@));
            match r {
                Some(b) => encodable(t) && b@ == gbk_encode(t),
                None => !encodable(t),
            }
        }),
{
    let text = decode_gbk(bytes);
    encode_rewritten(update_position_text(text.as_str(), id, x, y))
}

/// A GBK schematic file's new bytes after `clear_all_nets`; `None` when the
/// rewritten text is too long to encode.
pub fn clear_all_nets_bytes(bytes: &[u8]) -> (r: Option<Vec<u8>>)
    requires
        decodable(bytes@),
    ensures
        ({
            let t = format_model(clear_nets_model(parse_model(gbk_decode(bytes@))));
            match r {
                Some(b) => encodable(t) && b@ == gbk_encode(t),
                None => !encodable(t),
            }
        }),
{
    let text = decode_gbk(bytes);
    encode_rewritten(clear_all_nets_text(text.as_str()))
}

/// A GBK schematic file's new bytes after `add_net_pin`; `None` when the
/// rewritten text is too long to encode.
pub fn add_net_pin_bytes(bytes: &[u8], net: &str, pin: &str) -> (r: Option<Vec<u8>>)
    requires
        decodable(bytes@),
    ensures
        ({
            let t = format_model(add_net_pin_model(parse_model(gbk_decode(bytes@)), net@, pin@));
            match r {
                Some(b) => encodable(t) && b@ == gbk_encode(t),
                None => !encodable(t),
            }
        }),
{
    let text = decode_gbk(bytes);
    encode_rewritten(add_net_pin_text(text.as_str(), net, pin))
}

} // verus!
