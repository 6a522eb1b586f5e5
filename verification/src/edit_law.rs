//! What a rewritten file reads back after each edit: the edit's model is
//! written with [`crate::format::format_model`] and read with
//! [`crate::parse::parse_model`], as the edit tools do with the file.
use vstd::prelude::*;
use crate::text::{Text, is_ws};
use crate::model::{
    SchModel, PartV, NetV, AttrsV, key_index, has_key, lookup, assoc_insert, assoc_remove, entry_or,
    as_map, keys_unique, lemma_key_index, lemma_key_index_is, lemma_key_index_none, lemma_assoc_insert,
    lemma_assoc_remove, lemma_entry_or, lemma_lookup_map,
};
use crate::parse::{parse_model, net_add_pin, keep_part_pred};
use crate::format::{format_model, attr_or};
use crate::roundtrip::is_token;
use crate::number::is_float_literal;
use crate::roundtrip_law::{
    writable, writable_part, writable_designator, writable_net, writable_pin, device_text,
    footprint_text, x_text, y_text, def_entry, xy_entries, reread_entry, reread_entries, reread_model,
    lemma_format_then_parse, inert_part, writable_nets, part_body, lemma_writable_inert,
    lemma_format_then_parse_nets,
};
use crate::edit::lemma_add_net_pin_idempotent;
use crate::plain_law::{plain_part, lemma_plain_inert, lemma_plain_part_of};
use crate::roundtrip_law::{
    lemma_format_then_parse_plain, harmless_part, lemma_harmless_inert, lemma_writable_harmless,
    lemma_format_then_parse_part,
};
use crate::edit::{
    update_component_model, update_position_model, clear_nets_model, add_net_pin_model,
    lemma_update_component, lemma_update_position, lemma_add_net_pin,
};

verus! {

/// A device name that reads back: a token without `@`.
pub open spec fn writable_device(d: Text) -> bool {
    &&& is_token(d)
    &&& !d.contains('@')
}

/// Setting attribute `k` changes what is read under `k` alone.
proof fn lemma_attr_or_insert(a: AttrsV, k: Text, v: Text, q: Text, d: Text)
    requires
        keys_unique(a),
    ensures
        attr_or(assoc_insert(a, k, v), q, d) == (if q == k {
            v
        } else {
            attr_or(a, q, d)
        }),
{
    lemma_assoc_insert(a, k, v);
    lemma_lookup_map(assoc_insert(a, k, v), q);
    lemma_lookup_map(a, q);
}

proof fn lemma_attr_names_differ()
    ensures
        "Footprint"@ != "Device"@,
        "x"@ != "Device"@,
        "y"@ != "Device"@,
{
    reveal_strlit("Device");
    reveal_strlit("Footprint");
    reveal_strlit("x");
    reveal_strlit("y");
    assert("Footprint"@.len() != "Device"@.len());
    assert("x"@.len() != "Device"@.len());
    assert("y"@.len() != "Device"@.len());
}

/// The renamed part reads back: it keeps its footprint and position and
/// gets the new device.
proof fn lemma_renamed_writable(p: PartV, new_id: Text, dev: Text)
    requires
        writable_part(p),
        keys_unique(p.1),
        writable_designator(new_id),
        writable_device(dev),
    ensures
        writable_part((new_id, assoc_insert(p.1, "Device"@, dev))),
        device_text((new_id, assoc_insert(p.1, "Device"@, dev))) == dev,
        footprint_text((new_id, assoc_insert(p.1, "Device"@, dev))) == footprint_text(p),
        x_text((new_id, assoc_insert(p.1, "Device"@, dev))) == x_text(p),
        y_text((new_id, assoc_insert(p.1, "Device"@, dev))) == y_text(p),
{
    lemma_attr_names_differ();
    lemma_attr_or_insert(p.1, "Device"@, dev, "Device"@, seq![]);
    lemma_attr_or_insert(p.1, "Device"@, dev, "Footprint"@, seq![]);
    lemma_attr_or_insert(p.1, "Device"@, dev, "x"@, "0"@);
    lemma_attr_or_insert(p.1, "Device"@, dev, "y"@, "0"@);
}

/// The renamed schematic reads back, holds the renamed part first under
/// `new_id`, and no longer holds `old_id` when the names differ.
#[verifier::spinoff_prover]
#[verifier::rlimit(40)]
proof fn lemma_renamed_model(m: SchModel, old_id: Text, new_id: Text, dev: Text)
    requires
        m.wf(),
        forall|j: int| 0 <= j < m.parts.len() ==> harmless_part(#[trigger] m.parts[j]),
        has_key(m.parts, old_id),
        writable_part((old_id, lookup(m.parts, old_id).unwrap())),
        writable_designator(new_id),
        writable_device(dev),
    ensures
        update_component_model(m, old_id, new_id, dev).wf(),
        forall|j: int|
            0 <= j < update_component_model(m, old_id, new_id, dev).parts.len() ==> harmless_part(
                #[trigger] update_component_model(m, old_id, new_id, dev).parts[j],
            ),
        has_key(update_component_model(m, old_id, new_id, dev).parts, new_id),
        update_component_model(m, old_id, new_id, dev).parts[key_index(
            update_component_model(m, old_id, new_id, dev).parts,
            new_id,
        )] == (new_id, assoc_insert(lookup(m.parts, old_id).unwrap(), "Device"@, dev)),
        writable_part((new_id, assoc_insert(lookup(m.parts, old_id).unwrap(), "Device"@, dev))),
        old_id != new_id ==> !has_key(update_component_model(m, old_id, new_id, dev).parts, old_id),
        update_component_model(m, old_id, new_id, dev).nets == m.nets,
{
    lemma_key_index(m.parts, old_id);
    let i = key_index(m.parts, old_id);
    let p = m.parts[i];
    let attrs = assoc_insert(p.1, "Device"@, dev);
    let removed = assoc_remove(m.parts, old_id);
    let m2 = update_component_model(m, old_id, new_id, dev);
    lemma_update_component(m, old_id, new_id, dev);
    lemma_assoc_remove(m.parts, old_id);
    lemma_assoc_insert(removed, new_id, attrs);
    assert(keys_unique(p.1));
    lemma_renamed_writable(p, new_id, dev);
    lemma_writable_harmless((new_id, attrs));
    assert forall|j: int| 0 <= j < removed.len() implies harmless_part(#[trigger] removed[j]) by {
        let j2 = if j < i { j } else { j + 1 };
        assert(removed[j] == m.parts[j2]);
    }
    lemma_key_index(removed, new_id);
    assert forall|j: int| 0 <= j < m2.parts.len() implies harmless_part(#[trigger] m2.parts[j]) by {
        if j >= removed.len() || m2.parts[j] != removed[j] {
            assert(m2.parts[j] == (new_id, attrs));
        }
    }
    lemma_key_index(m2.parts, new_id);
    let q = key_index(m2.parts, new_id);
    assert(m2.parts[q] == (new_id, attrs)) by {
        assert(as_map(m2.parts)[new_id] == attrs);
    }
    if old_id != new_id {
        assert(!as_map(m2.parts).contains_key(old_id));
    }
}

/// What is read back of a part: its device first, its footprint when it
/// has one, and its position when both coordinates are float literals.
proof fn lemma_reread_entry_attrs(p: PartV)
    ensures
        lookup(reread_entry(p).1, "Device"@) == Some(device_text(p)),
        attr_or(reread_entry(p).1, "Footprint"@, seq![]) == footprint_text(p),
        is_float_literal(x_text(p)) && is_float_literal(y_text(p)) ==> {
            &&& lookup(reread_entry(p).1, "x"@) == Some(x_text(p))
            &&& lookup(reread_entry(p).1, "y"@) == Some(y_text(p))
        },
        !(is_float_literal(x_text(p)) && is_float_literal(y_text(p))) ==> {
            &&& lookup(reread_entry(p).1, "x"@).is_none()
            &&& lookup(reread_entry(p).1, "y"@).is_none()
        },
{
    let d = def_entry(p).1;
    let a = reread_entry(p).1;
    lemma_attr_names_differ();
    reveal_strlit("x");
    reveal_strlit("y");
    reveal_strlit("Footprint");
    assert("x"@ != "Footprint"@ && "y"@ != "Footprint"@ && "x"@ != "y"@) by {
        assert("x"@.len() != "Footprint"@.len());
        assert("y"@.len() != "Footprint"@.len());
        assert("x"@[0] != "y"@[0]);
    }
    assert(a[0] == d[0]);
    lemma_key_index_is(a, "Device"@, 0);
    if footprint_text(p).len() > 0 {
        assert(a[1] == d[1]);
        lemma_key_index_is(a, "Footprint"@, 1);
    } else {
        assert forall|j: int| 0 <= j < a.len() implies a[j].0 != "Footprint"@ by {
            if j >= d.len() {
                assert(a[j] == xy_entries(p)[j - d.len()]);
            }
        }
        lemma_key_index_none(a, "Footprint"@);
        assert(footprint_text(p) =~= seq![]);
    }
    if is_float_literal(x_text(p)) && is_float_literal(y_text(p)) {
        let n = d.len() as int;
        assert(a[n] == ("x"@, x_text(p)));
        assert(a[n + 1] == ("y"@, y_text(p)));
        assert forall|j: int| 0 <= j < n implies a[j].0 != "x"@ && a[j].0 != "y"@ by {
            assert(a[j] == d[j]);
        }
        lemma_key_index_is(a, "x"@, n);
        lemma_key_index_is(a, "y"@, n + 1);
    } else {
        assert(a =~= d);
        assert forall|j: int| 0 <= j < a.len() implies a[j].0 != "x"@ && a[j].0 != "y"@ by {}
        lemma_key_index_none(a, "x"@);
        lemma_key_index_none(a, "y"@);
    }
}

/// Renaming part `old_id` to `new_id` with device `dev`, then writing the
/// file and reading it back, gives a part `new_id` with device `dev` and the
/// old part's footprint and position (the position as written, `0` for an
/// unset coordinate, when both coordinates are float literals), no part
/// `old_id` any more (when the names differ), and the nets as they were;
/// for a well-formed schematic whose renamed part reads back (see
/// [`writable_part`]), whose other parts cannot change what is read of it
/// (see [`harmless_part`]: any device and footprint without a line feed),
/// whose nets read back, and a new name and device that read back.
pub proof fn lemma_update_component_reads_back(m: SchModel, old_id: Text, new_id: Text, dev: Text)
    requires
        m.wf(),
        writable_nets(m.nets),
        forall|j: int| 0 <= j < m.parts.len() ==> harmless_part(#[trigger] m.parts[j]),
        has_key(m.parts, old_id),
        writable_part((old_id, lookup(m.parts, old_id).unwrap())),
        writable_designator(new_id),
        writable_device(dev),
    ensures
        has_key(parse_model(format_model(update_component_model(m, old_id, new_id, dev))).parts, new_id),
        lookup(
            lookup(parse_model(format_model(update_component_model(m, old_id, new_id, dev))).parts, new_id).unwrap(),
            "Device"@,
        ) == Some(dev),
        attr_or(
            lookup(parse_model(format_model(update_component_model(m, old_id, new_id, dev))).parts, new_id).unwrap(),
            "Footprint"@,
            seq![],
        ) == attr_or(lookup(m.parts, old_id).unwrap(), "Footprint"@, seq![]),
        is_float_literal(attr_or(lookup(m.parts, old_id).unwrap(), "x"@, "0"@)) && is_float_literal(
            attr_or(lookup(m.parts, old_id).unwrap(), "y"@, "0"@),
        ) ==> {
            &&& lookup(
                lookup(parse_model(format_model(update_component_model(m, old_id, new_id, dev))).parts, new_id).unwrap(),
                "x"@,
            ) == Some(attr_or(lookup(m.parts, old_id).unwrap(), "x"@, "0"@))
            &&& lookup(
                lookup(parse_model(format_model(update_component_model(m, old_id, new_id, dev))).parts, new_id).unwrap(),
                "y"@,
            ) == Some(attr_or(lookup(m.parts, old_id).unwrap(), "y"@, "0"@))
        },
        old_id != new_id ==> !has_key(
            parse_model(format_model(update_component_model(m, old_id, new_id, dev))).parts,
            old_id,
        ),
        parse_model(format_model(update_component_model(m, old_id, new_id, dev))).nets == m.nets,
{
    let m2 = update_component_model(m, old_id, new_id, dev);
    lemma_renamed_model(m, old_id, new_id, dev);
    lemma_key_index(m2.parts, new_id);
    let q = key_index(m2.parts, new_id);
    let z: Text = if old_id != new_id {
        old_id
    } else {
        seq![]
    };
    assert forall|j: int| 0 <= j < m2.parts.len() implies m2.parts[j].0 != z by {
        if old_id != new_id {
            lemma_key_index(m2.parts, old_id);
        } else {
            assert(harmless_part(m2.parts[j]));
            assert(is_token(m2.parts[j].0));
        }
    }
    lemma_format_then_parse_part(m2, q, z);
    assert forall|j: int| 0 <= j < m2.parts.len() implies inert_part(#[trigger] m2.parts[j]) by {
        lemma_harmless_inert(m2.parts[j]);
    }
    lemma_format_then_parse_nets(m2);
    let p = (old_id, lookup(m.parts, old_id).unwrap());
    assert(keys_unique(p.1)) by {
        lemma_key_index(m.parts, old_id);
        assert(keys_unique(m.parts[key_index(m.parts, old_id)].1));
    }
    lemma_renamed_writable(p, new_id, dev);
    lemma_reread_entry_attrs((new_id, assoc_insert(p.1, "Device"@, dev)));
}

/// Moving part `id` to `(x, y)`, then writing the file and reading it back,
/// gives part `id` at `(x, y)` with its device and footprint as they were,
/// and the nets as they were; for a well-formed schematic whose moved part
/// reads back (see [`writable_part`]), whose other parts cannot change what
/// is read of it (see [`harmless_part`]), whose nets read back, and
/// coordinates that are float literals without whitespace.
pub proof fn lemma_update_position_reads_back(m: SchModel, id: Text, x: Text, y: Text)
    requires
        m.wf(),
        writable_nets(m.nets),
        forall|j: int| 0 <= j < m.parts.len() ==> harmless_part(#[trigger] m.parts[j]),
        has_key(m.parts, id),
        writable_part((id, lookup(m.parts, id).unwrap())),
        is_token(x),
        is_token(y),
        is_float_literal(x),
        is_float_literal(y),
    ensures
        has_key(parse_model(format_model(update_position_model(m, id, x, y))).parts, id),
        lookup(lookup(parse_model(format_model(update_position_model(m, id, x, y))).parts, id).unwrap(), "x"@)
            == Some(x),
        lookup(lookup(parse_model(format_model(update_position_model(m, id, x, y))).parts, id).unwrap(), "y"@)
            == Some(y),
        lookup(lookup(parse_model(format_model(update_position_model(m, id, x, y))).parts, id).unwrap(), "Device"@)
            == lookup(lookup(parse_model(format_model(m)).parts, id).unwrap(), "Device"@),
        attr_or(
            lookup(parse_model(format_model(update_position_model(m, id, x, y))).parts, id).unwrap(),
            "Footprint"@,
            seq![],
        ) == attr_or(lookup(parse_model(format_model(m)).parts, id).unwrap(), "Footprint"@, seq![]),
        parse_model(format_model(update_position_model(m, id, x, y))).nets == m.nets,
{
    let m2 = update_position_model(m, id, x, y);
    lemma_update_position(m, id, x, y);
    lemma_key_index(m.parts, id);
    let i = key_index(m.parts, id);
    let p = m.parts[i];
    let a1 = assoc_insert(p.1, "x"@, x);
    let a2 = assoc_insert(a1, "y"@, y);
    assert(m2.parts[i] == (id, a2));
    lemma_assoc_insert(p.1, "x"@, x);
    reveal_strlit("x");
    reveal_strlit("y");
    reveal_strlit("Device");
    reveal_strlit("Footprint");
    let xk = "x"@;
    let yk = "y"@;
    assert(xk != "Device"@ && xk != "Footprint"@ && yk != "Device"@ && yk != "Footprint"@ && xk != yk) by {
        assert(xk.len() != "Device"@.len());
        assert(xk.len() != "Footprint"@.len());
        assert(yk.len() != "Device"@.len());
        assert(yk.len() != "Footprint"@.len());
        assert(xk[0] != yk[0]);
    }
    lemma_attr_or_insert(p.1, xk, x, "Device"@, seq![]);
    lemma_attr_or_insert(p.1, xk, x, "Footprint"@, seq![]);
    lemma_attr_or_insert(p.1, xk, x, yk, "0"@);
    lemma_attr_or_insert(a1, yk, y, "Device"@, seq![]);
    lemma_attr_or_insert(a1, yk, y, "Footprint"@, seq![]);
    lemma_attr_or_insert(a1, yk, y, xk, "0"@);
    lemma_attr_or_insert(p.1, xk, x, xk, "0"@);
    lemma_attr_or_insert(a1, yk, y, yk, "0"@);
    let q = m2.parts[i];
    assert(device_text(q) == device_text(p));
    assert(footprint_text(q) == footprint_text(p));
    assert(x_text(q) == x);
    assert(y_text(q) == y);
    assert(writable_part(p));
    assert(writable_part(q));
    lemma_writable_harmless(q);
    assert forall|j: int| 0 <= j < m2.parts.len() implies harmless_part(#[trigger] m2.parts[j]) by {
        if j != i {
            assert(m2.parts[j] == m.parts[j]);
        }
    }
    let e: Text = seq![];
    assert forall|j: int| 0 <= j < m2.parts.len() implies m2.parts[j].0 != e by {
        assert(harmless_part(m2.parts[j]));
        assert(is_token(m2.parts[j].0));
    }
    lemma_format_then_parse_part(m2, i, e);
    lemma_format_then_parse_part(m, i, e);
    assert forall|j: int| 0 <= j < m2.parts.len() implies inert_part(#[trigger] m2.parts[j]) by {
        lemma_harmless_inert(m2.parts[j]);
    }
    lemma_format_then_parse_nets(m2);
    lemma_reread_entry_attrs(q);
    lemma_reread_entry_attrs(p);
}

/// Adding `pin` to net `net`, then writing the file and reading it back,
/// gives the nets as the edit left them: net `net` lists `pin`; for nets
/// and a net name and pin that read back (see [`writable_nets`]), whatever
/// the parts hold, as long as no line written for a part can be read as
/// more than one line, as a section header or as a `*SIGNAL*` line (see
/// [`inert_part`]).
pub proof fn lemma_add_net_pin_reads_back(m: SchModel, net: Text, pin: Text)
    requires
        writable_nets(m.nets),
        forall|i: int| 0 <= i < m.parts.len() ==> inert_part(#[trigger] m.parts[i]),
        is_token(net),
        writable_pin(pin),
    ensures
        parse_model(format_model(add_net_pin_model(m, net, pin))).nets == add_net_pin_model(m, net, pin).nets,
        has_key(parse_model(format_model(add_net_pin_model(m, net, pin))).nets, net),
        lookup(parse_model(format_model(add_net_pin_model(m, net, pin))).nets, net).unwrap().contains(pin),
{
    lemma_add_net_pin_nets(m, net, pin);
    lemma_format_then_parse_nets(add_net_pin_model(m, net, pin));
}

/// Adding a pin that reads back to a net whose name reads back keeps nets
/// that read back; afterwards the net lists the pin.
proof fn lemma_add_net_pin_nets(m: SchModel, net: Text, pin: Text)
    requires
        writable_nets(m.nets),
        is_token(net),
        writable_pin(pin),
    ensures
        writable_nets(add_net_pin_model(m, net, pin).nets),
        has_key(add_net_pin_model(m, net, pin).nets, net),
        lookup(add_net_pin_model(m, net, pin).nets, net).unwrap().contains(pin),
{
    let bare = SchModel { parts: seq![], nets: m.nets, lines: seq![] };
    assert(bare.wf());
    lemma_add_net_pin(bare, net, pin);
    assert(add_net_pin_model(bare, net, pin).nets == add_net_pin_model(m, net, pin).nets);
    let n1 = entry_or(m.nets, net, seq![]);
    lemma_entry_or(m.nets, net, seq![]);
    assert forall|j: int| 0 <= j < n1.len() implies writable_net(#[trigger] n1[j]) by {
        if j < m.nets.len() {
            assert(n1[j] == m.nets[j]);
        } else {
            assert(n1[j] == (net, Seq::<Text>::empty()));
        }
    }
    let r = net_add_pin(n1, net, pin);
    lemma_key_index(n1, net);
    let k = key_index(n1, net);
    assert forall|j: int| 0 <= j < r.len() implies writable_net(#[trigger] r[j]) by {
        if j == k && !n1[k].1.contains(pin) {
            let ps = n1[k].1;
            assert(writable_net(n1[k]));
            assert forall|t: int| 0 <= t < ps.push(pin).len() implies writable_pin(#[trigger] ps.push(pin)[t]) by {
                if t < ps.len() {
                    assert(ps.push(pin)[t] == ps[t]);
                }
            }
        }
    }
}

/// Adding a pin a second time, to the file that the first addition wrote,
/// changes no net read back: the nets read back after the second addition
/// are those read back after the first; for nets, a net name and a pin
/// that read back, and parts whose written texts (designator, device,
/// footprint, coordinates) hold neither `*` nor a line feed.
pub proof fn lemma_add_net_pin_twice_reads_back(m: SchModel, net: Text, pin: Text)
    requires
        writable_nets(m.nets),
        forall|i: int| 0 <= i < m.parts.len() ==> plain_part(#[trigger] m.parts[i]),
        is_token(net),
        writable_pin(pin),
    ensures
        parse_model(
            format_model(add_net_pin_model(parse_model(format_model(add_net_pin_model(m, net, pin))), net, pin)),
        ).nets == parse_model(format_model(add_net_pin_model(m, net, pin))).nets,
{
    let m2 = add_net_pin_model(m, net, pin);
    lemma_add_net_pin_nets(m, net, pin);
    assert forall|i: int| 0 <= i < m2.parts.len() implies inert_part(#[trigger] m2.parts[i]) by {
        lemma_plain_inert(m2.parts[i]);
    }
    lemma_format_then_parse_nets(m2);
    lemma_format_then_parse_plain(m2);
    let once = parse_model(format_model(m2));
    assert(once.nets == m2.nets);
    let bare = SchModel { parts: seq![], nets: m.nets, lines: seq![] };
    lemma_add_net_pin_idempotent(bare, net, pin);
    let m3 = add_net_pin_model(once, net, pin);
    assert(m3.nets == add_net_pin_model(add_net_pin_model(bare, net, pin), net, pin).nets);
    assert(m3.nets == m2.nets);
    assert forall|i: int| 0 <= i < m3.parts.len() implies inert_part(#[trigger] m3.parts[i]) by {
        assert(m3.parts[i] == once.parts[i]);
        lemma_plain_part_of(once.parts[i]);
        lemma_plain_inert(once.parts[i]);
    }
    lemma_format_then_parse_nets(m3);
}

/// Clearing the nets, then writing the file and reading it back, gives no
/// nets, whatever the parts hold, as long as no line written for a part can
/// be read as more than one line, as a section header or as a `*SIGNAL*`
/// line (see [`inert_part`]).
pub proof fn lemma_clear_all_nets_reads_back(m: SchModel)
    requires
        forall|i: int| 0 <= i < m.parts.len() ==> inert_part(#[trigger] m.parts[i]),
    ensures
        parse_model(format_model(clear_nets_model(m))).nets == Seq::<NetV>::empty(),
{
    let m2 = clear_nets_model(m);
    assert(writable_nets(m2.nets));
    lemma_format_then_parse_nets(m2);
}

/// Clearing the nets leaves the parts that the file reads back as they
/// were before clearing; for a schematic that reads back.
pub proof fn lemma_clear_all_nets_keeps_parts(m: SchModel)
    requires
        writable(m),
    ensures
        parse_model(format_model(clear_nets_model(m))).parts == parse_model(format_model(m)).parts,
{
    let m2 = clear_nets_model(m);
    assert(writable(m2));
    lemma_format_then_parse(m2);
    lemma_format_then_parse(m);
}

} // verus!
