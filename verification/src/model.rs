//! The schematic data: parts with their attributes, nets with their pins,
//! and drawn line segments; and the association lists that hold them.
use vstd::prelude::*;
use crate::text::{Text, strings_view};

verus! {

/// One attribute of a part, such as `Device`, `Footprint`, `x` or `y`.
pub struct Attr {
    pub key: String,
    pub value: String,
}

/// A part (component) by its designator, with its attributes in the order
/// they were first set.
pub struct Part {
    pub designator: String,
    pub attrs: Vec<Attr>,
}

/// A net by its name, with its pins in the order they were added.
pub struct Net {
    pub name: String,
    pub pins: Vec<String>,
}

/// A straight segment from `(x1, y1)` to `(x2, y2)`; each coordinate is the
/// decimal text it was read as.
pub struct Segment {
    pub x1: String,
    pub y1: String,
    pub x2: String,
    pub y2: String,
}

/// Everything read from a schematic file.
pub struct SchData {
    pub parts: Vec<Part>,
    pub nets: Vec<Net>,
    pub lines: Vec<Segment>,
}

pub type AttrsV = Seq<(Text, Text)>;

pub type PartV = (Text, AttrsV);

pub type NetV = (Text, Seq<Text>);

pub type SegV = (Text, Text, Text, Text);

/// The mathematical view of [`SchData`].
#[verifier::ext_equal]
pub struct SchModel {
    pub parts: Seq<PartV>,
    pub nets: Seq<NetV>,
    pub lines: Seq<SegV>,
}

impl View for Attr {
    type V = (Text, Text);

    open spec fn view(&self) -> (Text, Text) {
        (self.key@, self.value@)
    }
}

pub open spec fn attrs_view(v: Seq<Attr>) -> AttrsV {
    v.map_values(|a: Attr| a@)
}

impl View for Part {
    type V = PartV;

    open spec fn view(&self) -> PartV {
        (self.designator@, attrs_view(self.attrs@))
    }
}

impl View for Net {
    type V = NetV;

    open spec fn view(&self) -> NetV {
        (self.name@, strings_view(self.pins@))
    }
}

impl View for Segment {
    type V = SegV;

    open spec fn view(&self) -> SegV {
        (self.x1@, self.y1@, self.x2@, self.y2@)
    }
}

pub open spec fn parts_view(v: Seq<Part>) -> Seq<PartV> {
    v.map_values(|p: Part| p@)
}

pub open spec fn nets_view(v: Seq<Net>) -> Seq<NetV> {
    v.map_values(|n: Net| n@)
}

pub open spec fn segs_view(v: Seq<Segment>) -> Seq<SegV> {
    v.map_values(|s: Segment| s@)
}

impl View for SchData {
    type V = SchModel;

    open spec fn view(&self) -> SchModel {
        SchModel {
            parts: parts_view(self.parts@),
            nets: nets_view(self.nets@),
            lines: segs_view(self.lines@),
        }
    }
}

/// Index of the first entry with key `k`, or -1.
pub open spec fn key_index<V>(m: Seq<(Text, V)>, k: Text) -> int
    decreases m.len(),
{
    if m.len() == 0 {
        -1
    } else {
        let r = key_index(m.drop_last(), k);
        if r >= 0 {
            r
        } else if m.last().0 == k {
            m.len() - 1
        } else {
            -1
        }
    }
}

pub open spec fn has_key<V>(m: Seq<(Text, V)>, k: Text) -> bool {
    key_index(m, k) >= 0
}

/// The value under `k`, if any.
pub open spec fn lookup<V>(m: Seq<(Text, V)>, k: Text) -> Option<V> {
    if key_index(m, k) >= 0 {
        Some(m[key_index(m, k)].1)
    } else {
        None
    }
}

/// `m` with `k` mapped to `v`: in place if `k` is there, else at the end.
pub open spec fn assoc_insert<V>(m: Seq<(Text, V)>, k: Text, v: V) -> Seq<(Text, V)> {
    if key_index(m, k) >= 0 {
        m.update(key_index(m, k), (k, v))
    } else {
        m.push((k, v))
    }
}

/// `m` with an entry `(k, d)` added at the end when `k` is not there.
pub open spec fn entry_or<V>(m: Seq<(Text, V)>, k: Text, d: V) -> Seq<(Text, V)> {
    if key_index(m, k) >= 0 {
        m
    } else {
        m.push((k, d))
    }
}

/// `m` without the entry for `k`.
pub open spec fn assoc_remove<V>(m: Seq<(Text, V)>, k: Text) -> Seq<(Text, V)> {
    if key_index(m, k) >= 0 {
        m.remove(key_index(m, k))
    } else {
        m
    }
}

/// No key occurs twice.
pub open spec fn keys_unique<V>(m: Seq<(Text, V)>) -> bool {
    forall|i: int, j: int| 0 <= i < j < m.len() ==> m[i].0 != m[j].0
}

/// The map that an association list with unique keys stands for.
pub open spec fn as_map<V>(m: Seq<(Text, V)>) -> Map<Text, V> {
    Map::new(|k: Text| has_key(m, k), |k: Text| m[key_index(m, k)].1)
}

impl SchModel {
    /// Keys of parts, of each part's attributes and of nets are unique, and
    /// no net lists a pin twice.
    pub open spec fn wf(self) -> bool {
        &&& keys_unique(self.parts)
        &&& forall|i: int| 0 <= i < self.parts.len() ==> keys_unique(#[trigger] self.parts[i].1)
        &&& keys_unique(self.nets)
        &&& forall|i: int| 0 <= i < self.nets.len() ==> (#[trigger] self.nets[i].1).no_duplicates()
    }
}

pub proof fn lemma_key_index<V>(m: Seq<(Text, V)>, k: Text)
    ensures
        -1 <= key_index(m, k) < m.len(),
        key_index(m, k) >= 0 ==> m[key_index(m, k)].0 == k,
        forall|j: int| 0 <= j < m.len() && (key_index(m, k) < 0 || j < key_index(m, k)) ==> m[j].0 != k,
    decreases m.len(),
{
    if m.len() > 0 {
        lemma_key_index(m.drop_last(), k);
        assert forall|j: int| 0 <= j < m.len() && (key_index(m, k) < 0 || j < key_index(m, k)) implies m[j].0 != k by {
            if j < m.len() - 1 {
                assert(m[j] == m.drop_last()[j]);
            }
        }
        if key_index(m.drop_last(), k) >= 0 {
            assert(m[key_index(m, k)] == m.drop_last()[key_index(m, k)]);
        }
    }
}

/// The first entry with key `k` stands at `i`.
pub proof fn lemma_key_index_is<V>(m: Seq<(Text, V)>, k: Text, i: int)
    requires
        0 <= i < m.len(),
        m[i].0 == k,
        forall|j: int| 0 <= j < i ==> m[j].0 != k,
    ensures
        key_index(m, k) == i,
{
    lemma_key_index(m, k);
    let r = key_index(m, k);
    if r < 0 || r > i {
        assert(m[i].0 != k);
    }
}

pub proof fn lemma_key_index_none<V>(m: Seq<(Text, V)>, k: Text)
    requires
        forall|j: int| 0 <= j < m.len() ==> m[j].0 != k,
    ensures
        key_index(m, k) == -1,
{
    lemma_key_index(m, k);
    if key_index(m, k) >= 0 {
        assert(m[key_index(m, k)].0 != k);
    }
}

/// Key lookup depends on the keys alone.
pub proof fn lemma_same_keys<V>(m1: Seq<(Text, V)>, m2: Seq<(Text, V)>, x: Text)
    requires
        m1.len() == m2.len(),
        forall|j: int| 0 <= j < m1.len() ==> m1[j].0 == m2[j].0,
    ensures
        key_index(m1, x) == key_index(m2, x),
    decreases m1.len(),
{
    if m1.len() > 0 {
        lemma_same_keys(m1.drop_last(), m2.drop_last(), x);
    }
}

/// Inserting keeps keys unique, and the map it stands for gains `k -> v`.
pub proof fn lemma_assoc_insert<V>(m: Seq<(Text, V)>, k: Text, v: V)
    requires
        keys_unique(m),
    ensures
        keys_unique(assoc_insert(m, k, v)),
        as_map(assoc_insert(m, k, v)) == as_map(m).insert(k, v),
        has_key(assoc_insert(m, k, v), k),
{
    lemma_key_index(m, k);
    let r = assoc_insert(m, k, v);
    let ik = key_index(m, k);
    if ik >= 0 {
        assert forall|x: Text| key_index(r, x) == key_index(m, x) by {
            lemma_same_keys(r, m, x);
        }
    } else {
        assert(r.drop_last() =~= m);
        assert forall|x: Text| key_index(r, x) == (if x == k {
            m.len() as int
        } else {
            key_index(m, x)
        }) by {
            lemma_key_index(m, x);
        }
    }
    assert forall|x: Text| #[trigger] has_key(r, x) == (has_key(m, x) || x == k) by {}
    assert forall|x: Text| has_key(r, x) implies r[key_index(r, x)].1 == (if x == k {
        v
    } else {
        m[key_index(m, x)].1
    }) by {
        lemma_key_index(m, x);
        lemma_key_index(r, x);
    }
    assert(as_map(r) =~= as_map(m).insert(k, v));
}

pub proof fn lemma_entry_or<V>(m: Seq<(Text, V)>, k: Text, d: V)
    requires
        keys_unique(m),
    ensures
        keys_unique(entry_or(m, k, d)),
        has_key(entry_or(m, k, d), k),
        forall|j: int| 0 <= j < m.len() ==> entry_or(m, k, d)[j] == m[j],
{
    lemma_key_index(m, k);
    let r = entry_or(m, k, d);
    if key_index(m, k) < 0 {
        lemma_key_index_is(r, k, m.len() as int);
    }
}

/// Removing keeps keys unique, and the map it stands for loses `k`.
pub proof fn lemma_assoc_remove<V>(m: Seq<(Text, V)>, k: Text)
    requires
        keys_unique(m),
    ensures
        keys_unique(assoc_remove(m, k)),
        as_map(assoc_remove(m, k)) == as_map(m).remove(k),
{
    lemma_key_index(m, k);
    let r = assoc_remove(m, k);
    if key_index(m, k) >= 0 {
        let i = key_index(m, k);
        assert forall|a: int, b: int| 0 <= a < b < r.len() implies r[a].0 != r[b].0 by {
            let a2 = if a < i { a } else { a + 1 };
            let b2 = if b < i { b } else { b + 1 };
            assert(r[a] == m[a2]);
            assert(r[b] == m[b2]);
        }
        assert forall|x: Text| #[trigger] has_key(r, x) == (has_key(m, x) && x != k) by {
            lemma_key_index(m, x);
            lemma_key_index(r, x);
            if has_key(m, x) && x != k {
                let j = key_index(m, x);
                let j2 = if j < i { j } else { j - 1 };
                assert(r[j2] == m[j]);
            }
            if has_key(r, x) {
                let j = key_index(r, x);
                let j2 = if j < i { j } else { j + 1 };
                assert(r[j] == m[j2]);
            }
        }
        assert forall|x: Text| has_key(r, x) implies r[key_index(r, x)].1 == m[key_index(m, x)].1 by {
            lemma_key_index(m, x);
            lemma_key_index(r, x);
            let j = key_index(m, x);
            let j2 = if j < i { j } else { j - 1 };
            assert(r[j2] == m[j]);
            assert forall|t: int| 0 <= t < j2 implies r[t].0 != x by {
                let t2 = if t < i { t } else { t + 1 };
                assert(r[t] == m[t2]);
            }
            lemma_key_index_is(r, x, j2);
        }
    } else {
        assert forall|x: Text| has_key(m, x) implies x != k by {
            lemma_key_index(m, x);
        }
    }
    assert(as_map(r) =~= as_map(m).remove(k));
}

/// With unique keys, `lookup` finds the value the map holds.
pub proof fn lemma_lookup_map<V>(m: Seq<(Text, V)>, k: Text)
    ensures
        lookup(m, k) == (if as_map(m).contains_key(k) {
            Some(as_map(m)[k])
        } else {
            None
        }),
{
}

pub fn find_part(parts: &Vec<Part>, k: &String) -> (r: Option<usize>)
    ensures
        match r {
            Some(i) => i < parts.len() && i as int == key_index(parts_view(parts@), k@),
            None => key_index(parts_view(parts@), k@) == -1,
        },
{
    let ghost m = parts_view(parts@);
    let mut i: usize = 0;
    while i < parts.len()
        invariant
            i <= parts.len(),
            m == parts_view(parts@),
            forall|j: int| 0 <= j < i ==> m[j].0 != k@,
        decreases parts.len() - i,
    {
        if parts[i].designator == *k {
            proof {
                lemma_key_index_is(m, k@, i as int);
            }
            return Some(i);
        }
        i += 1;
    }
    proof {
        lemma_key_index_none(m, k@);
    }
    None
}

pub fn find_net(nets: &Vec<Net>, k: &String) -> (r: Option<usize>)
    ensures
        match r {
            Some(i) => i < nets.len() && i as int == key_index(nets_view(nets@), k@),
            None => key_index(nets_view(nets@), k@) == -1,
        },
{
    let ghost m = nets_view(nets@);
    let mut i: usize = 0;
    while i < nets.len()
        invariant
            i <= nets.len(),
            m == nets_view(nets@),
            forall|j: int| 0 <= j < i ==> m[j].0 != k@,
        decreases nets.len() - i,
    {
        if nets[i].name == *k {
            proof {
                lemma_key_index_is(m, k@, i as int);
            }
            return Some(i);
        }
        i += 1;
    }
    proof {
        lemma_key_index_none(m, k@);
    }
    None
}

pub fn find_attr(attrs: &Vec<Attr>, k: &String) -> (r: Option<usize>)
    ensures
        match r {
            Some(i) => i < attrs.len() && i as int == key_index(attrs_view(attrs@), k@),
            None => key_index(attrs_view(attrs@), k@) == -1,
        },
{
    let ghost m = attrs_view(attrs@);
    let mut i: usize = 0;
    while i < attrs.len()
        invariant
            i <= attrs.len(),
            m == attrs_view(attrs@),
            forall|j: int| 0 <= j < i ==> m[j].0 != k@,
        decreases attrs.len() - i,
    {
        if attrs[i].key == *k {
            proof {
                lemma_key_index_is(m, k@, i as int);
            }
            return Some(i);
        }
        i += 1;
    }
    proof {
        lemma_key_index_none(m, k@);
    }
    None
}

/// `pins` holds `p`.
pub fn contains_string(pins: &Vec<String>, p: &String) -> (b: bool)
    ensures
        b == strings_view(pins@).contains(p@),
{
    let ghost m = strings_view(pins@);
    let mut i: usize = 0;
    while i < pins.len()
        invariant
            i <= pins.len(),
            m == strings_view(pins@),
            forall|j: int| 0 <= j < i ==> m[j] != p@,
        decreases pins.len() - i,
    {
        if pins[i] == *p {
            assert(m[i as int] == p@);
            return true;
        }
        i += 1;
    }
    false
}

/// Sets attribute `k` of `attrs` to `v`, in place or at the end.
pub fn attrs_insert(attrs: &mut Vec<Attr>, k: String, v: String)
    ensures
        attrs_view(final(attrs)@) == assoc_insert(attrs_view(old(attrs)@), k@, v@),
{
    let ghost kv = k@;
    let ghost vv = v@;
    match find_attr(attrs, &k) {
        Some(i) => {
            proof {
                lemma_key_index(attrs_view(old(attrs)@), kv);
            }
            attrs[i].value = v;
            assert(attrs_view(attrs@) =~= attrs_view(old(attrs)@).update(i as int, (kv, vv)));
        },
        None => {
            attrs.push(Attr { key: k, value: v });
            assert(attrs_view(attrs@) =~= attrs_view(old(attrs)@).push((kv, vv)));
        },
    }
}

/// The value of attribute `k`, if set.
pub fn attrs_get(attrs: &Vec<Attr>, k: &String) -> (r: Option<String>)
    ensures
        match r {
            Some(v) => lookup(attrs_view(attrs@), k@) == Some(v@),
            None => lookup(attrs_view(attrs@), k@).is_none(),
        },
{
    match find_attr(attrs, k) {
        Some(i) => Some(attrs[i].value.clone()),
        None => None,
    }
}

/// Replacing the entry at `i`, whose key is `k`, changes nothing found
/// under another key.
pub proof fn lemma_update_keeps_others<V>(m: Seq<(Text, V)>, i: int, k: Text, v: V, q: Text)
    requires
        0 <= i < m.len(),
        m[i].0 == k,
        q != k,
    ensures
        lookup(m.update(i, (k, v)), q) == lookup(m, q),
{
    let r = m.update(i, (k, v));
    assert forall|t: int| 0 <= t < r.len() implies r[t].0 == m[t].0 by {}
    lemma_same_keys(r, m, q);
    lemma_key_index(m, q);
    let t = key_index(m, q);
    if t >= 0 {
        assert(t != i);
        assert(r[t] == m[t]);
    }
}

/// Adding an entry for `k` at the end changes nothing found under another
/// key.
pub proof fn lemma_push_keeps_others<V>(m: Seq<(Text, V)>, k: Text, v: V, q: Text)
    requires
        q != k,
    ensures
        lookup(m.push((k, v)), q) == lookup(m, q),
{
    let r = m.push((k, v));
    assert(r.drop_last() =~= m);
    lemma_key_index(m, q);
    if key_index(m, q) >= 0 {
        assert(r[key_index(m, q)] == m[key_index(m, q)]);
    }
}

} // verus!
