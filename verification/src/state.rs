//! The state snapshot: an owned capture of a plugin instance's full
//! configuration, with its lifecycle — capture from an instance, load from a
//! document, serialization, restoration and port-value emission.

use vstd::prelude::*;
use vstd::pervasive::VecAdditionalExecFns;
use vstd::utf8::*;
use crate::codec::{
    doc_wf, enc_doc, entries_fit, entries_view, lemma_enc_doc_valid_utf8, sp_doc, str_fits,
    DocView, RawDoc, RawEntry, RawEntryView,
};
use crate::hex::{lemma_pow16_16, pow16};
use crate::instance::{GetValue, Instance, InstanceProperty, InstancePropertyView, SetValue};
use crate::urid::{map_view_wf, spec_map_state, spec_map_urid, spec_unmap, UridMap};

verus! {

/// One stored property or metadata entry: the key identifier and the value's
/// type identifier as integers issued by the mapping service, and the value
/// bytes.
pub struct Property {
    pub key: u32,
    pub type_: u32,
    pub value: Vec<u8>,
}

#[verifier::ext_equal]
pub ghost struct PropertyView {
    pub key: u32,
    pub ty: u32,
    pub val: Seq<u8>,
}

impl View for Property {
    type V = PropertyView;

    open spec fn view(&self) -> PropertyView {
        PropertyView { key: self.key, ty: self.type_, val: self.value@ }
    }
}

/// One stored port value: the port's symbol, the value's type identifier,
/// and the value bytes.
pub struct PortValue {
    pub symbol: String,
    pub type_: u32,
    pub value: Vec<u8>,
}

#[verifier::ext_equal]
pub ghost struct PortValueView {
    pub sym: Seq<char>,
    pub ty: u32,
    pub val: Seq<u8>,
}

impl View for PortValue {
    type V = PortValueView;

    open spec fn view(&self) -> PortValueView {
        PortValueView { sym: self.symbol@, ty: self.type_, val: self.value@ }
    }
}

/// The content of a snapshot: the plugin it belongs to, its own identity once
/// persisted, a human-readable label, and the stored properties, port values
/// and metadata entries.
#[verifier::ext_equal]
pub ghost struct StateView {
    pub plugin_uri: Seq<char>,
    pub uri: Option<Seq<char>>,
    pub label: Option<Seq<char>>,
    pub props: Seq<PropertyView>,
    pub ports: Seq<PortValueView>,
    pub metadata: Seq<PropertyView>,
}

pub open spec fn props_view(ps: Seq<Property>) -> Seq<PropertyView> {
    Seq::new(ps.len(), |i: int| ps[i]@)
}

pub open spec fn ports_view(ps: Seq<PortValue>) -> Seq<PortValueView> {
    Seq::new(ps.len(), |i: int| ps[i]@)
}

pub open spec fn opt_str_view(o: Option<String>) -> Option<Seq<char>> {
    match o {
        Some(s) => Some(s@),
        None => None,
    }
}

/// A captured snapshot of one plugin instance's configuration.
///
/// The plugin identity is always present; the snapshot's own identity is
/// absent until the snapshot has been serialized or loaded under an explicit
/// subject. A snapshot is exclusively owned by the caller that created it.
pub struct State {
    plugin_uri: String,
    uri: Option<String>,
    label: Option<String>,
    props: Vec<Property>,
    port_values: Vec<PortValue>,
    metadata: Vec<Property>,
}

impl View for State {
    type V = StateView;

    closed spec fn view(&self) -> StateView {
        StateView {
            plugin_uri: self.plugin_uri@,
            uri: opt_str_view(self.uri),
            label: opt_str_view(self.label),
            props: props_view(self.props@),
            ports: ports_view(self.port_values@),
            metadata: props_view(self.metadata@),
        }
    }
}

/// Configuration identity: two snapshots are equal exactly when their stored
/// properties and port values, type tags included, are equal. The label and
/// the identities are metadata, not configuration, and are excluded.
pub open spec fn spec_equals(a: StateView, b: StateView) -> bool {
    a.props == b.props && a.ports == b.ports
}

impl State {
    /// The invariant of every snapshot: its plugin identity is present.
    pub open spec fn wf(&self) -> bool {
        self@.plugin_uri.len() > 0
    }

    /// The plugin this snapshot applies to. Immutable after creation.
    pub fn plugin_uri(&self) -> (r: &String)
        ensures
            r@ == self@.plugin_uri,
    {
        &self.plugin_uri
    }

    /// The snapshot's own identity: present only once saved or loaded under
    /// an explicit subject, absent for a freshly captured snapshot.
    pub fn uri(&self) -> (r: &Option<String>)
        ensures
            opt_str_view(*r) == self@.uri,
    {
        &self.uri
    }

    /// The human-readable label, when one has been set.
    pub fn label(&self) -> (r: &Option<String>)
        ensures
            opt_str_view(*r) == self@.label,
    {
        &self.label
    }

    /// Set the human-readable label. The label is metadata: it does not
    /// change what [`State::equals`] compares.
    pub fn set_label(&mut self, label: &str)
        ensures
            final(self)@ == (StateView { label: Some(label@), ..old(self)@ }),
    {
        self.label = Some(label.to_owned());
        proof {
            assert(self@ =~= (StateView { label: Some(label@), ..old(self)@ }));
        }
    }

    /// How many properties the snapshot stores.
    pub fn num_properties(&self) -> (n: usize)
        ensures
            n == self@.props.len(),
    {
        self.props.len()
    }

    /// How many port values the snapshot stores.
    pub fn num_port_values(&self) -> (n: usize)
        ensures
            n == self@.ports.len(),
    {
        self.port_values.len()
    }

    /// How many metadata entries the snapshot carries.
    pub fn num_metadata(&self) -> (n: usize)
        ensures
            n == self@.metadata.len(),
    {
        self.metadata.len()
    }

    /// Set one metadata entry, keyed and typed by issued identifiers. The
    /// distinguished success status is 0; a key or type identifier of 0 (the
    /// never-issued value) is rejected with status 1 and changes nothing.
    pub fn set_metadata(&mut self, key: u32, type_: u32, value: Vec<u8>) -> (status: u32)
        ensures
            status == 0 <==> (key != 0 && type_ != 0),
            status == 0 ==> final(self)@ == (StateView {
                metadata: sp_upsert_prop(
                    old(self)@.metadata,
                    PropertyView { key, ty: type_, val: value@ },
                ),
                ..old(self)@
            }),
            status != 0 ==> *final(self) == *old(self),
    {
        if key == 0 || type_ == 0 {
            return 1;
        }
        let ghost target = sp_upsert_prop(
            self@.metadata,
            PropertyView { key, ty: type_, val: value@ },
        );
        upsert_prop(&mut self.metadata, key, type_, value);
        proof {
            assert(self@ =~= (StateView { metadata: target, ..old(self)@ }));
        }
        0
    }

    /// The engine's deep structural comparison: properties and port values,
    /// type tags included; label and identities excluded.
    pub fn equals(&self, other: &State) -> (r: bool)
        ensures
            r == spec_equals(self@, other@),
    {
        props_eq(&self.props, &other.props) && ports_eq(&self.port_values, &other.port_values)
    }
}

/// Where a key already sits in a property list, or -1.
pub open spec fn prop_index(ps: Seq<PropertyView>, key: u32) -> int
    decreases ps.len(),
{
    if ps.len() == 0 {
        -1
    } else if ps[0].key == key {
        0
    } else {
        let r = prop_index(ps.drop_first(), key);
        if r == -1 {
            -1
        } else {
            r + 1
        }
    }
}

/// Store a property under its key: replace the first entry with that key, or
/// append a new one.
pub open spec fn sp_upsert_prop(ps: Seq<PropertyView>, p: PropertyView) -> Seq<PropertyView> {
    let i = prop_index(ps, p.key);
    if i >= 0 {
        ps.update(i, p)
    } else {
        ps.push(p)
    }
}

proof fn lemma_prop_index(ps: Seq<PropertyView>, key: u32)
    ensures
        prop_index(ps, key) >= -1,
        prop_index(ps, key) == -1 ==> forall|j: int| 0 <= j < ps.len() ==> ps[j].key != key,
        prop_index(ps, key) >= 0 ==> prop_index(ps, key) < ps.len() && ps[prop_index(
            ps,
            key,
        )].key == key && forall|j: int| 0 <= j < prop_index(ps, key) ==> ps[j].key != key,
    decreases ps.len(),
{
    if ps.len() > 0 && ps[0].key != key {
        lemma_prop_index(ps.drop_first(), key);
        let r = prop_index(ps.drop_first(), key);
        if r == -1 {
            assert forall|j: int| 1 <= j < ps.len() implies ps[j].key != key by {
                assert(ps.drop_first()[j - 1] == ps[j]);
            }
        } else {
            assert(0 <= r < ps.drop_first().len());
            assert(ps.drop_first()[r] == ps[r + 1]);
            assert forall|j: int| 1 <= j < r + 1 implies ps[j].key != key by {
                assert(ps.drop_first()[j - 1] == ps[j]);
            }
        }
    }
}

fn upsert_prop(ps: &mut Vec<Property>, key: u32, type_: u32, value: Vec<u8>)
    ensures
        props_view(final(ps)@) == sp_upsert_prop(
            props_view(old(ps)@),
            PropertyView { key, ty: type_, val: value@ },
        ),
{
    let ghost pvs = props_view(ps@);
    let ghost p = PropertyView { key, ty: type_, val: value@ };
    let n = ps.len();
    let mut i: usize = 0;
    while i < n
        invariant
            n == ps@.len(),
            i <= n,
            ps == old(ps),
            pvs == props_view(ps@),
            p == (PropertyView { key, ty: type_, val: value@ }),
            forall|j: int| 0 <= j < i ==> pvs[j].key != key,
        decreases n - i,
    {
        if ps[i].key == key {
            proof {
                lemma_prop_index(pvs, key);
                assert(pvs[i as int] == ps@[i as int]@);
                assert(pvs[i as int].key == key);
                let idx = prop_index(pvs, key);
                if idx == -1 {
                    assert(pvs[i as int].key != key);
                } else if idx < i {
                    assert(pvs[idx].key == key);
                } else if idx > i {
                    assert(pvs[i as int].key != key);
                }
                assert(idx == i);
            }
            let newp = Property { key, type_, value };
            proof {
                assert(newp@ =~= p);
            }
            ps.set(i, newp);
            proof {
                assert forall|j: int| 0 <= j < ps@.len() implies props_view(ps@)[j]
                    == pvs.update(i as int, p)[j] by {
                    assert(props_view(ps@)[j] == ps@[j]@);
                    if j == i {
                        assert(ps@[j]@ == p);
                    } else {
                        assert(ps@[j] == old(ps)@[j]);
                    }
                }
                assert(props_view(ps@) =~= pvs.update(i as int, p));
            }
            return ;
        }
        i += 1;
    }
    proof {
        lemma_prop_index(pvs, key);
        if prop_index(pvs, key) >= 0 {
            assert(pvs[prop_index(pvs, key)].key == key);
            assert(false);
        }
    }
    let newp = Property { key, type_, value };
    proof {
        assert(newp@ =~= p);
    }
    ps.push(newp);
    proof {
        assert forall|j: int| 0 <= j < ps@.len() implies props_view(ps@)[j] == pvs.push(p)[j] by {
            assert(props_view(ps@)[j] == ps@[j]@);
            if j < pvs.len() {
                assert(ps@[j] == old(ps)@[j]);
            } else {
                assert(ps@[j]@ == p);
            }
        }
        assert(props_view(ps@) =~= pvs.push(p));
    }
}

/// Compare two byte payloads.
fn bytes_eq(a: &Vec<u8>, b: &Vec<u8>) -> (r: bool)
    ensures
        r == (a@ == b@),
{
    if a.len() != b.len() {
        return false;
    }
    let n = a.len();
    let mut i: usize = 0;
    while i < n
        invariant
            n == a@.len(),
            n == b@.len(),
            i <= n,
            forall|j: int| 0 <= j < i ==> a@[j] == b@[j],
        decreases n - i,
    {
        if a[i] != b[i] {
            return false;
        }
        i += 1;
    }
    proof {
        assert(a@ =~= b@);
    }
    true
}

fn props_eq(a: &Vec<Property>, b: &Vec<Property>) -> (r: bool)
    ensures
        r == (props_view(a@) == props_view(b@)),
{
    if a.len() != b.len() {
        proof {
            assert(props_view(a@).len() != props_view(b@).len());
        }
        return false;
    }
    let n = a.len();
    let mut i: usize = 0;
    while i < n
        invariant
            n == a@.len(),
            n == b@.len(),
            i <= n,
            forall|j: int| 0 <= j < i ==> props_view(a@)[j] == props_view(b@)[j],
        decreases n - i,
    {
        let pa = &a[i];
        let pb = &b[i];
        if pa.key != pb.key || pa.type_ != pb.type_ || !bytes_eq(&pa.value, &pb.value) {
            proof {
                assert(props_view(a@)[i as int] != props_view(b@)[i as int]);
            }
            return false;
        }
        proof {
            assert(props_view(a@)[i as int] =~= props_view(b@)[i as int]);
        }
        i += 1;
    }
    proof {
        assert(props_view(a@) =~= props_view(b@));
    }
    true
}

fn ports_eq(a: &Vec<PortValue>, b: &Vec<PortValue>) -> (r: bool)
    ensures
        r == (ports_view(a@) == ports_view(b@)),
{
    if a.len() != b.len() {
        proof {
            assert(ports_view(a@).len() != ports_view(b@).len());
        }
        return false;
    }
    let n = a.len();
    let mut i: usize = 0;
    while i < n
        invariant
            n == a@.len(),
            n == b@.len(),
            i <= n,
            forall|j: int| 0 <= j < i ==> ports_view(a@)[j] == ports_view(b@)[j],
        decreases n - i,
    {
        let pa = &a[i];
        let pb = &b[i];
        if !(pa.symbol == pb.symbol) || pa.type_ != pb.type_ || !bytes_eq(&pa.value, &pb.value) {
            proof {
                assert(ports_view(a@)[i as int] != ports_view(b@)[i as int]);
            }
            return false;
        }
        proof {
            assert(ports_view(a@)[i as int] =~= ports_view(b@)[i as int]);
        }
        i += 1;
    }
    proof {
        assert(ports_view(a@) =~= ports_view(b@));
    }
    true
}

/// Copy a byte payload.
fn copy_bytes(v: &Vec<u8>) -> (r: Vec<u8>)
    ensures
        r@ == v@,
{
    let mut out: Vec<u8> = Vec::new();
    let n = v.len();
    let mut i: usize = 0;
    while i < n
        invariant
            n == v@.len(),
            i <= n,
            out@ == v@.subrange(0, i as int),
        decreases n - i,
    {
        out.push(v[i]);
        proof {
            assert(v@.subrange(0, i + 1) =~= v@.subrange(0, i as int).push(v@[i as int]));
        }
        i += 1;
    }
    proof {
        assert(v@.subrange(0, n as int) =~= v@);
    }
    out
}

/// The document form of one stored property: both identifiers translated
/// back to strings. Fails on a tag the mapping never issued.
pub open spec fn sp_unmap_prop(p: PropertyView, m: Seq<Seq<char>>) -> Option<RawEntryView> {
    match (spec_unmap(m, p.key), spec_unmap(m, p.ty)) {
        (Some(k), Some(t)) => Some(RawEntryView { name: k, ty: t, val: p.val }),
        _ => None,
    }
}

pub open spec fn sp_unmap_props(ps: Seq<PropertyView>, m: Seq<Seq<char>>) -> Option<
    Seq<RawEntryView>,
>
    decreases ps.len(),
{
    if ps.len() == 0 {
        Some(Seq::empty())
    } else {
        match sp_unmap_prop(ps[0], m) {
            None => None,
            Some(e) => match sp_unmap_props(ps.drop_first(), m) {
                None => None,
                Some(rest) => Some(seq![e] + rest),
            },
        }
    }
}

/// The document form of one stored port value: the symbol is already a
/// string; only the type tag is translated back.
pub open spec fn sp_unmap_port(p: PortValueView, m: Seq<Seq<char>>) -> Option<RawEntryView> {
    match spec_unmap(m, p.ty) {
        Some(t) => Some(RawEntryView { name: p.sym, ty: t, val: p.val }),
        None => None,
    }
}

pub open spec fn sp_unmap_ports(ps: Seq<PortValueView>, m: Seq<Seq<char>>) -> Option<
    Seq<RawEntryView>,
>
    decreases ps.len(),
{
    if ps.len() == 0 {
        Some(Seq::empty())
    } else {
        match sp_unmap_port(ps[0], m) {
            None => None,
            Some(e) => match sp_unmap_ports(ps.drop_first(), m) {
                None => None,
                Some(rest) => Some(seq![e] + rest),
            },
        }
    }
}

/// The document a snapshot serializes to under the subject `uri`, or nothing
/// when a stored tag is unknown to the mapping.
pub open spec fn sp_unmap_doc(sv: StateView, m: Seq<Seq<char>>, uri: Seq<char>) -> Option<
    DocView,
> {
    match (sp_unmap_props(sv.props, m), sp_unmap_ports(sv.ports, m), sp_unmap_props(
        sv.metadata,
        m,
    )) {
        (Some(props), Some(ports), Some(metadata)) => Some(
            DocView { plugin_uri: sv.plugin_uri, uri, label: sv.label, props, ports, metadata },
        ),
        _ => None,
    }
}

/// The stored form of parsed property records: identifiers translated to
/// integers, issuing fresh ones as needed; the mapping table grows through
/// the list.
pub open spec fn sp_intern_props(es: Seq<RawEntryView>, m: Seq<Seq<char>>) -> (
    Seq<PropertyView>,
    Seq<Seq<char>>,
)
    decreases es.len(),
{
    if es.len() == 0 {
        (Seq::empty(), m)
    } else {
        let k = spec_map_urid(m, es[0].name);
        let m1 = spec_map_state(m, es[0].name);
        let t = spec_map_urid(m1, es[0].ty);
        let m2 = spec_map_state(m1, es[0].ty);
        let r = sp_intern_props(es.drop_first(), m2);
        (seq![PropertyView { key: k, ty: t, val: es[0].val }] + r.0, r.1)
    }
}

pub open spec fn sp_intern_ports(es: Seq<RawEntryView>, m: Seq<Seq<char>>) -> (
    Seq<PortValueView>,
    Seq<Seq<char>>,
)
    decreases es.len(),
{
    if es.len() == 0 {
        (Seq::empty(), m)
    } else {
        let t = spec_map_urid(m, es[0].ty);
        let m1 = spec_map_state(m, es[0].ty);
        let r = sp_intern_ports(es.drop_first(), m1);
        (seq![PortValueView { sym: es[0].name, ty: t, val: es[0].val }] + r.0, r.1)
    }
}

/// The snapshot a parsed document loads into, together with the mapping table
/// afterwards. The subject written in the document becomes the snapshot's own
/// identity.
pub open spec fn sp_intern_doc(d: DocView, m: Seq<Seq<char>>) -> (StateView, Seq<Seq<char>>) {
    let pr = sp_intern_props(d.props, m);
    let po = sp_intern_ports(d.ports, pr.1);
    let me = sp_intern_props(d.metadata, po.1);
    (
        StateView {
            plugin_uri: d.plugin_uri,
            uri: Some(d.uri),
            label: d.label,
            props: pr.0,
            ports: po.0,
            metadata: me.0,
        },
        me.1,
    )
}

/// An instance's properties in document-record form: what a capture reads.
pub open spec fn inst_entries(ps: Seq<InstancePropertyView>) -> Seq<RawEntryView> {
    Seq::new(ps.len(), |i: int| RawEntryView { name: ps[i].key, ty: ps[i].ty, val: ps[i].val })
}

pub open spec fn with_entries(acc: Seq<RawEntryView>, r: Option<Seq<RawEntryView>>) -> Option<
    Seq<RawEntryView>,
> {
    match r {
        None => None,
        Some(rest) => Some(acc + rest),
    }
}

fn unmap_props(ps: &Vec<Property>, map: &UridMap) -> (r: Option<Vec<RawEntry>>)
    ensures
        match r {
            Some(es) => sp_unmap_props(props_view(ps@), map@) == Some(entries_view(es@)),
            None => sp_unmap_props(props_view(ps@), map@) is None,
        },
{
    let ghost pvs = props_view(ps@);
    let ghost m = map@;
    let n = ps.len();
    let mut acc: Vec<RawEntry> = Vec::new();
    let mut i: usize = 0;
    proof {
        assert(entries_view(acc@) =~= Seq::<RawEntryView>::empty());
        assert(pvs.skip(0) =~= pvs);
    }
    while i < n
        invariant
            n == ps@.len(),
            i <= n,
            pvs == props_view(ps@),
            m == map@,
            sp_unmap_props(pvs, m) == with_entries(
                entries_view(acc@),
                sp_unmap_props(pvs.skip(i as int), m),
            ),
        decreases n - i,
    {
        proof {
            assert(pvs.skip(i as int)[0] == pvs[i as int]);
            assert(pvs.skip(i as int).drop_first() =~= pvs.skip(i + 1));
            assert(pvs[i as int] == ps@[i as int]@);
        }
        let p = &ps[i];
        let k = match map.unmap(p.key) {
            None => {
                return None;
            },
            Some(x) => x,
        };
        let t = match map.unmap(p.type_) {
            None => {
                return None;
            },
            Some(x) => x,
        };
        let e = RawEntry { name: k.clone(), ty: t.clone(), val: copy_bytes(&p.value) };
        proof {
            let ev = RawEntryView { name: k@, ty: t@, val: p@.val };
            assert(e@ =~= ev);
            assert(sp_unmap_prop(pvs[i as int], m) == Some(ev));
            let inner = sp_unmap_props(pvs.skip(i + 1), m);
            match inner {
                None => {},
                Some(rest) => {
                    assert(entries_view(acc@) + (seq![ev] + rest) =~= (entries_view(acc@)
                        + seq![ev]) + rest);
                },
            }
        }
        let ghost pre_acc = entries_view(acc@);
        acc.push(e);
        proof {
            assert(entries_view(acc@) =~= pre_acc + seq![acc@[acc@.len() - 1]@]);
        }
        i += 1;
    }
    proof {
        assert(pvs.skip(n as int) =~= Seq::<PropertyView>::empty());
        assert(entries_view(acc@) + Seq::<RawEntryView>::empty() =~= entries_view(acc@));
    }
    Some(acc)
}

fn unmap_ports(ps: &Vec<PortValue>, map: &UridMap) -> (r: Option<Vec<RawEntry>>)
    ensures
        match r {
            Some(es) => sp_unmap_ports(ports_view(ps@), map@) == Some(entries_view(es@)),
            None => sp_unmap_ports(ports_view(ps@), map@) is None,
        },
{
    let ghost pvs = ports_view(ps@);
    let ghost m = map@;
    let n = ps.len();
    let mut acc: Vec<RawEntry> = Vec::new();
    let mut i: usize = 0;
    proof {
        assert(entries_view(acc@) =~= Seq::<RawEntryView>::empty());
        assert(pvs.skip(0) =~= pvs);
    }
    while i < n
        invariant
            n == ps@.len(),
            i <= n,
            pvs == ports_view(ps@),
            m == map@,
            sp_unmap_ports(pvs, m) == with_entries(
                entries_view(acc@),
                sp_unmap_ports(pvs.skip(i as int), m),
            ),
        decreases n - i,
    {
        proof {
            assert(pvs.skip(i as int)[0] == pvs[i as int]);
            assert(pvs.skip(i as int).drop_first() =~= pvs.skip(i + 1));
            assert(pvs[i as int] == ps@[i as int]@);
        }
        let p = &ps[i];
        let t = match map.unmap(p.type_) {
            None => {
                return None;
            },
            Some(x) => x,
        };
        let e = RawEntry { name: p.symbol.clone(), ty: t.clone(), val: copy_bytes(&p.value) };
        proof {
            let ev = RawEntryView { name: p@.sym, ty: t@, val: p@.val };
            assert(e@ =~= ev);
            assert(sp_unmap_port(pvs[i as int], m) == Some(ev));
            let inner = sp_unmap_ports(pvs.skip(i + 1), m);
            match inner {
                None => {},
                Some(rest) => {
                    assert(entries_view(acc@) + (seq![ev] + rest) =~= (entries_view(acc@)
                        + seq![ev]) + rest);
                },
            }
        }
        let ghost pre_acc = entries_view(acc@);
        acc.push(e);
        proof {
            assert(entries_view(acc@) =~= pre_acc + seq![acc@[acc@.len() - 1]@]);
        }
        i += 1;
    }
    proof {
        assert(pvs.skip(n as int) =~= Seq::<PortValueView>::empty());
        assert(entries_view(acc@) + Seq::<RawEntryView>::empty() =~= entries_view(acc@));
    }
    Some(acc)
}

fn intern_props(es: &Vec<RawEntry>, map: &mut UridMap) -> (r: Vec<Property>)
    requires
        old(map).wf(),
    ensures
        final(map).wf(),
        props_view(r@) == sp_intern_props(entries_view(es@), old(map)@).0,
        final(map)@ == sp_intern_props(entries_view(es@), old(map)@).1,
{
    let ghost evs = entries_view(es@);
    let ghost m0 = map@;
    let n = es.len();
    let mut acc: Vec<Property> = Vec::new();
    let mut i: usize = 0;
    proof {
        assert(props_view(acc@) =~= Seq::<PropertyView>::empty());
        assert(evs.skip(0) =~= evs);
        assert(Seq::<PropertyView>::empty() + sp_intern_props(evs, m0).0 =~= sp_intern_props(
            evs,
            m0,
        ).0);
    }
    while i < n
        invariant
            n == es@.len(),
            i <= n,
            evs == entries_view(es@),
            map.wf(),
            sp_intern_props(evs, m0).0 == props_view(acc@) + sp_intern_props(
                evs.skip(i as int),
                map@,
            ).0,
            sp_intern_props(evs, m0).1 == sp_intern_props(evs.skip(i as int), map@).1,
        decreases n - i,
    {
        proof {
            assert(evs.skip(i as int)[0] == evs[i as int]);
            assert(evs.skip(i as int).drop_first() =~= evs.skip(i + 1));
            assert(evs[i as int] == es@[i as int]@);
        }
        let ghost m_before = map@;
        let e = &es[i];
        let k = map.map(e.name.as_str());
        let t = map.map(e.ty.as_str());
        let p = Property { key: k, type_: t, value: copy_bytes(&e.val) };
        proof {
            let pv = PropertyView { key: k, ty: t, val: evs[i as int].val };
            assert(p@ =~= pv);
            let tail0 = sp_intern_props(evs.skip(i as int), m_before).0;
            assert(tail0 == seq![pv] + sp_intern_props(evs.skip(i + 1), map@).0);
            assert(props_view(acc@) + (seq![pv] + sp_intern_props(evs.skip(i + 1), map@).0) =~= (
            props_view(acc@) + seq![pv]) + sp_intern_props(evs.skip(i + 1), map@).0);
        }
        let ghost pre_acc = props_view(acc@);
        acc.push(p);
        proof {
            assert(props_view(acc@) =~= pre_acc + seq![acc@[acc@.len() - 1]@]);
        }
        i += 1;
    }
    proof {
        assert(evs.skip(n as int) =~= Seq::<RawEntryView>::empty());
        assert(props_view(acc@) + Seq::<PropertyView>::empty() =~= props_view(acc@));
    }
    acc
}

fn intern_ports(es: &Vec<RawEntry>, map: &mut UridMap) -> (r: Vec<PortValue>)
    requires
        old(map).wf(),
    ensures
        final(map).wf(),
        ports_view(r@) == sp_intern_ports(entries_view(es@), old(map)@).0,
        final(map)@ == sp_intern_ports(entries_view(es@), old(map)@).1,
{
    let ghost evs = entries_view(es@);
    let ghost m0 = map@;
    let n = es.len();
    let mut acc: Vec<PortValue> = Vec::new();
    let mut i: usize = 0;
    proof {
        assert(ports_view(acc@) =~= Seq::<PortValueView>::empty());
        assert(evs.skip(0) =~= evs);
        assert(Seq::<PortValueView>::empty() + sp_intern_ports(evs, m0).0 =~= sp_intern_ports(
            evs,
            m0,
        ).0);
    }
    while i < n
        invariant
            n == es@.len(),
            i <= n,
            evs == entries_view(es@),
            map.wf(),
            sp_intern_ports(evs, m0).0 == ports_view(acc@) + sp_intern_ports(
                evs.skip(i as int),
                map@,
            ).0,
            sp_intern_ports(evs, m0).1 == sp_intern_ports(evs.skip(i as int), map@).1,
        decreases n - i,
    {
        proof {
            assert(evs.skip(i as int)[0] == evs[i as int]);
            assert(evs.skip(i as int).drop_first() =~= evs.skip(i + 1));
            assert(evs[i as int] == es@[i as int]@);
        }
        let ghost m_before = map@;
        let e = &es[i];
        let t = map.map(e.ty.as_str());
        let p = PortValue { symbol: e.name.clone(), type_: t, value: copy_bytes(&e.val) };
        proof {
            let pv = PortValueView { sym: evs[i as int].name, ty: t, val: evs[i as int].val };
            assert(p@ =~= pv);
            let tail0 = sp_intern_ports(evs.skip(i as int), m_before).0;
            assert(tail0 == seq![pv] + sp_intern_ports(evs.skip(i + 1), map@).0);
            assert(ports_view(acc@) + (seq![pv] + sp_intern_ports(evs.skip(i + 1), map@).0) =~= (
            ports_view(acc@) + seq![pv]) + sp_intern_ports(evs.skip(i + 1), map@).0);
        }
        let ghost pre_acc = ports_view(acc@);
        acc.push(p);
        proof {
            assert(ports_view(acc@) =~= pre_acc + seq![acc@[acc@.len() - 1]@]);
        }
        i += 1;
    }
    proof {
        assert(evs.skip(n as int) =~= Seq::<RawEntryView>::empty());
        assert(ports_view(acc@) + Seq::<PortValueView>::empty() =~= ports_view(acc@));
    }
    acc
}

/// Every real string fits the wire format's length field.
fn note_str_fits(s: &str)
    ensures
        str_fits(s@),
{
    let bs = s.as_bytes();
    let n: u64 = bs.len() as u64;
    proof {
        lemma_pow16_16();
        assert(encode_utf8(s@).len() == n);
    }
}

fn note_blob_fits(v: &Vec<u8>)
    ensures
        crate::codec::blob_fits(v@),
{
    let n: u64 = v.len() as u64;
    proof {
        lemma_pow16_16();
    }
}

fn note_entries_fit(es: &Vec<RawEntry>)
    ensures
        entries_fit(entries_view(es@)),
{
    let n = es.len();
    let cnt: u64 = n as u64;
    proof {
        lemma_pow16_16();
    }
    let mut i: usize = 0;
    while i < n
        invariant
            n == es@.len(),
            i <= n,
            forall|j: int| 0 <= j < i ==> crate::codec::entry_fits(#[trigger] entries_view(es@)[j]),
        decreases n - i,
    {
        note_str_fits(es[i].name.as_str());
        note_str_fits(es[i].ty.as_str());
        note_blob_fits(&es[i].val);
        proof {
            assert(entries_view(es@)[i as int] == es@[i as int]@);
        }
        i += 1;
    }
}

fn slice_to_vec(b: &[u8]) -> (r: Vec<u8>)
    ensures
        r@ == b@,
{
    let mut out: Vec<u8> = Vec::new();
    let n = b.len();
    let mut i: usize = 0;
    while i < n
        invariant
            n == b@.len(),
            i <= n,
            out@ == b@.subrange(0, i as int),
        decreases n - i,
    {
        out.push(b[i]);
        proof {
            assert(b@.subrange(0, i + 1) =~= b@.subrange(0, i as int).push(b@[i as int]));
        }
        i += 1;
    }
    proof {
        assert(b@.subrange(0, n as int) =~= b@);
    }
    out
}

impl State {
    /// Serialize this snapshot as a text document under the subject identity
    /// `uri`. Succeeds exactly when every stored tag is known to the mapping;
    /// `base_uri` does not change the document's content. A later
    /// [`State::new_from_string`] with a matching mapping reads the document
    /// back (see [`lemma_state_round_trip`]).
    pub fn to_string(&self, map: &UridMap, uri: &str, base_uri: Option<&str>) -> (r: Option<
        String,
    >)
        requires
            self.wf(),
            map.wf(),
        ensures
            match r {
                Some(t) => sp_unmap_doc(self@, map@, uri@) matches Some(d) && t@ == decode_utf8(
                    enc_doc(d),
                ) && sp_doc(encode_utf8(t@)) == Some(d),
                None => sp_unmap_doc(self@, map@, uri@) is None,
            },
    {
        let props = match unmap_props(&self.props, map) {
            None => {
                return None;
            },
            Some(x) => x,
        };
        let ports = match unmap_ports(&self.port_values, map) {
            None => {
                return None;
            },
            Some(x) => x,
        };
        let metadata = match unmap_props(&self.metadata, map) {
            None => {
                return None;
            },
            Some(x) => x,
        };
        let label = match &self.label {
            Some(l) => Some(l.clone()),
            None => None,
        };
        let doc = RawDoc {
            plugin_uri: self.plugin_uri.clone(),
            uri: uri.to_owned(),
            label,
            props,
            ports,
            metadata,
        };
        let ghost dv = sp_unmap_doc(self@, map@, uri@).unwrap();
        proof {
            assert(doc@ =~= dv);
        }
        note_str_fits(doc.plugin_uri.as_str());
        note_str_fits(doc.uri.as_str());
        match &doc.label {
            Some(l) => note_str_fits(l.as_str()),
            None => {},
        }
        note_entries_fit(&doc.props);
        note_entries_fit(&doc.ports);
        note_entries_fit(&doc.metadata);
        proof {
            assert(doc_wf(dv));
        }
        let bytes = crate::codec::encode_doc(&doc);
        proof {
            lemma_enc_doc_valid_utf8(dv);
            crate::codec::lemma_parse_enc_doc(dv);
            vstd::utf8::decode_utf8_encode_utf8(enc_doc(dv));
        }
        match crate::codec::from_utf8_opt(bytes) {
            Some(t) => Some(t),
            None => {
                proof {
                    assert(false);
                }
                None
            },
        }
    }

    /// Load a snapshot from an in-memory document, with no filesystem
    /// interaction. Fails closed: a malformed document yields `None` and
    /// leaves the mapping untouched; no partial snapshot is ever produced.
    pub fn new_from_string(map: &mut UridMap, s: &str) -> (r: Option<State>)
        requires
            old(map).wf(),
        ensures
            final(map).wf(),
            match r {
                Some(st) => sp_doc(encode_utf8(s@)) matches Some(d) && st@ == sp_intern_doc(
                    d,
                    old(map)@,
                ).0 && final(map)@ == sp_intern_doc(d, old(map)@).1 && st.wf(),
                None => sp_doc(encode_utf8(s@)) is None && final(map)@ == old(map)@,
            },
    {
        let bytes = slice_to_vec(s.as_bytes());
        let doc = match crate::codec::parse_doc(&bytes) {
            None => {
                return None;
            },
            Some(d) => d,
        };
        let ghost dv = doc@;
        let props = intern_props(&doc.props, map);
        let port_values = intern_ports(&doc.ports, map);
        let metadata = intern_props(&doc.metadata, map);
        let st = State {
            plugin_uri: doc.plugin_uri,
            uri: Some(doc.uri),
            label: doc.label,
            props,
            port_values,
            metadata,
        };
        proof {
            assert(st@ =~= sp_intern_doc(dv, old(map)@).0);
            assert(dv.plugin_uri.len() > 0);
        }
        Some(st)
    }

    /// Look a snapshot up among already-loaded documents by its subject
    /// identity: the first document whose identity matches, copied out, or
    /// `None` when no document matches.
    pub fn new_from_world(world: &Vec<State>, subject: &str) -> (r: Option<State>)
        ensures
            match r {
                Some(st) => world_find(states_view(world@), subject@) >= 0 && st@ == states_view(
                    world@,
                )[world_find(states_view(world@), subject@)],
                None => world_find(states_view(world@), subject@) == -1,
            },
    {
        let ghost w = states_view(world@);
        let subj: String = subject.to_owned();
        let n = world.len();
        let mut i: usize = 0;
        while i < n
            invariant
                n == world@.len(),
                w == states_view(world@),
                i <= n,
                subj@ == subject@,
                forall|j: int| 0 <= j < i ==> w[j].uri != Some(subject@),
            decreases n - i,
        {
            let hit = match &world[i].uri {
                Some(u) => *u == subj,
                None => false,
            };
            proof {
                assert(w[i as int] == world@[i as int]@);
            }
            if hit {
                proof {
                    lemma_world_find(w, subject@, i as int);
                }
                return Some(copy_state(&world[i]));
            }
            i += 1;
        }
        proof {
            lemma_world_find_absent(w, subject@);
        }
        None
    }

    /// Capture a snapshot from a live instance: record every property the
    /// instance exposes, tagging its identifiers through the mapping, and —
    /// only when a produce-accessor is supplied — ask it once per port for
    /// that port's value. With no accessor, port values are simply omitted:
    /// nothing fails and no caller code runs. A fresh capture has no identity
    /// and no label. The `flags` bitmask concerns how on-disk resources are
    /// relocated when a snapshot is written out, which touching no filesystem
    /// here leaves to the caller; it does not alter what is captured. Returns
    /// `None` exactly when the instance is unusable (its plugin identity is
    /// missing), in which case the mapping is untouched.
    ///
    /// While properties are being queried, the instantiation threading class
    /// forbids overlapping calls into the same live instance. The borrows
    /// here keep the surface and the accessor exclusive for the whole call;
    /// whoever owns the live object must keep the same exclusivity around it.
    pub fn new_from_instance<G: GetValue>(
        instance: &Instance,
        map: &mut UridMap,
        user: Option<&mut G>,
        flags: u32,
    ) -> (r: Option<State>)
        requires
            old(map).wf(),
        ensures
            final(map).wf(),
            match r {
                Some(st) => instance.wf() && st.wf() && st@.plugin_uri == instance@.plugin_uri
                    && st@.uri is None && st@.label is None && st@.metadata.len() == 0
                    && st@.props == sp_intern_props(inst_entries(instance@.props), old(map)@).0
                    && final(map)@ == sp_intern_props(inst_entries(instance@.props), old(map)@).1
                    && (user is Some ==> st@.ports.len() == instance@.ports.len() && (forall|
                    i: int,
                |
                    0 <= i < st@.ports.len() ==> st@.ports[i].sym == instance@.ports[i])) && (
                user is None ==> st@.ports.len() == 0),
                None => !instance.wf() && final(map)@ == old(map)@,
            },
    {
        if instance.plugin_uri.as_str().is_empty() {
            return None;
        }
        let entries = inst_to_entries(&instance.properties);
        let props = intern_props(&entries, map);
        proof {
            assert(entries_view(entries@) =~= inst_entries(instance@.props));
        }
        let port_values = match user {
            None => Vec::new(),
            Some(g) => capture_ports(&instance.port_symbols, g),
        };
        let metadata: Vec<Property> = Vec::new();
        proof {
            assert(props_view(metadata@) =~= Seq::<PropertyView>::empty());
        }
        let st = State {
            plugin_uri: instance.plugin_uri.clone(),
            uri: None,
            label: None,
            props,
            port_values,
            metadata,
        };
        Some(st)
    }

    /// Write this snapshot's properties back into an instance, and — only
    /// when a consume-accessor is supplied — hand it each stored port value.
    /// Each stored property whose identifiers the mapping knows replaces the
    /// instance's entry under the same key, or is added; one with an unknown
    /// identifier is skipped silently, as property-restoration failures are
    /// not surfaced through this call. With no accessor, no caller code runs
    /// and port values are left to [`State::emit_port_values`]. The `flags`
    /// bitmask does not alter what is written back.
    ///
    /// The same instantiation threading class as for capture applies: the
    /// exclusive borrow of the instance makes an overlapping call into the
    /// same instance impossible here, and the owner of the live object must
    /// preserve that exclusivity around the real thing.
    pub fn restore<C: SetValue>(
        &self,
        map: &UridMap,
        instance: &mut Instance,
        user: Option<&mut C>,
        flags: u32,
    )
        ensures
            final(instance)@.plugin_uri == old(instance)@.plugin_uri,
            final(instance)@.ports == old(instance)@.ports,
            final(instance)@.props == sp_restore_props(old(instance)@.props, self@.props, map@),
    {
        let ghost sps = self@.props;
        let ghost m = map@;
        let ghost p0 = old(instance)@.props;
        let n = self.props.len();
        let mut i: usize = 0;
        proof {
            assert(sps.skip(0) =~= sps);
        }
        while i < n
            invariant
                n == self.props@.len(),
                i <= n,
                sps == self@.props,
                m == map@,
                p0 == old(instance)@.props,
                instance@.plugin_uri == old(instance)@.plugin_uri,
                instance@.ports == old(instance)@.ports,
                sp_restore_props(p0, sps, m) == sp_restore_props(
                    instance@.props,
                    sps.skip(i as int),
                    m,
                ),
            decreases n - i,
        {
            proof {
                assert(sps.skip(i as int)[0] == sps[i as int]);
                assert(sps.skip(i as int).drop_first() =~= sps.skip(i + 1));
                assert(sps[i as int] == self.props@[i as int]@);
            }
            let ghost cur = instance@.props;
            let p = &self.props[i];
            let ku = map.unmap(p.key);
            let tu = map.unmap(p.type_);
            match (ku, tu) {
                (Some(k), Some(t)) => {
                    proof {
                        assert(sp_restore_step(cur, sps[i as int], m) == sp_upsert_inst(
                            cur,
                            k@,
                            t@,
                            sps[i as int].val,
                        ));
                        assert(inst_props_view(instance.properties@) =~= instance@.props);
                    }
                    upsert_inst(&mut instance.properties, k, t, &p.value);
                    proof {
                        assert(instance@.props =~= inst_props_view(instance.properties@));
                        assert(instance@.props == sp_restore_step(cur, sps[i as int], m));
                    }
                },
                _ => {
                    proof {
                        assert(sp_restore_step(cur, sps[i as int], m) == cur);
                    }
                },
            }
            i += 1;
        }
        proof {
            assert(sps.skip(n as int) =~= Seq::<PropertyView>::empty());
        }
        match user {
            None => {},
            Some(g) => {
                let np = self.port_values.len();
                let mut j: usize = 0;
                while j < np
                    invariant
                        np == self.port_values@.len(),
                        j <= np,
                    decreases np - j,
                {
                    let pv = &self.port_values[j];
                    g.set_value(pv.symbol.as_str(), pv.type_, &pv.value);
                    j += 1;
                }
            },
        }
    }

    /// Hand each stored port value to the consume-accessor, touching no
    /// instance, and say how many values were handed over. With no accessor
    /// nothing is invoked and the count is zero.
    pub fn emit_port_values<C: SetValue>(&self, user: Option<&mut C>) -> (n: usize)
        ensures
            user is Some ==> n == self@.ports.len(),
            user is None ==> n == 0,
    {
        match user {
            None => 0,
            Some(g) => {
                let np = self.port_values.len();
                let mut j: usize = 0;
                while j < np
                    invariant
                        np == self.port_values@.len(),
                        j <= np,
                    decreases np - j,
                {
                    let pv = &self.port_values[j];
                    g.set_value(pv.symbol.as_str(), pv.type_, &pv.value);
                    j += 1;
                }
                np
            },
        }
    }
}

pub open spec fn inst_props_view(ps: Seq<InstanceProperty>) -> Seq<InstancePropertyView> {
    Seq::new(ps.len(), |i: int| ps[i]@)
}

/// Where a key identifier already sits in an instance's property list, or -1.
pub open spec fn inst_prop_index(ps: Seq<InstancePropertyView>, key: Seq<char>) -> int
    decreases ps.len(),
{
    if ps.len() == 0 {
        -1
    } else if ps[0].key == key {
        0
    } else {
        let r = inst_prop_index(ps.drop_first(), key);
        if r == -1 {
            -1
        } else {
            r + 1
        }
    }
}

/// Write a property into an instance's list under its key: replace the first
/// entry with that key, or append a new one.
pub open spec fn sp_upsert_inst(
    ps: Seq<InstancePropertyView>,
    key: Seq<char>,
    ty: Seq<char>,
    val: Seq<u8>,
) -> Seq<InstancePropertyView> {
    let i = inst_prop_index(ps, key);
    let p = InstancePropertyView { key, ty, val };
    if i >= 0 {
        ps.update(i, p)
    } else {
        ps.push(p)
    }
}

/// What restoring one stored property does to an instance's list: an upsert
/// when the mapping knows both identifiers, nothing otherwise.
pub open spec fn sp_restore_step(
    cur: Seq<InstancePropertyView>,
    p: PropertyView,
    m: Seq<Seq<char>>,
) -> Seq<InstancePropertyView> {
    match (spec_unmap(m, p.key), spec_unmap(m, p.ty)) {
        (Some(k), Some(t)) => sp_upsert_inst(cur, k, t, p.val),
        _ => cur,
    }
}

/// What restoring a whole snapshot does to an instance's property list.
pub open spec fn sp_restore_props(
    cur: Seq<InstancePropertyView>,
    sps: Seq<PropertyView>,
    m: Seq<Seq<char>>,
) -> Seq<InstancePropertyView>
    decreases sps.len(),
{
    if sps.len() == 0 {
        cur
    } else {
        sp_restore_props(sp_restore_step(cur, sps[0], m), sps.drop_first(), m)
    }
}

proof fn lemma_inst_prop_index(ps: Seq<InstancePropertyView>, key: Seq<char>)
    ensures
        inst_prop_index(ps, key) >= -1,
        inst_prop_index(ps, key) == -1 ==> forall|j: int| 0 <= j < ps.len() ==> ps[j].key != key,
        inst_prop_index(ps, key) >= 0 ==> inst_prop_index(ps, key) < ps.len() && ps[inst_prop_index(
            ps,
            key,
        )].key == key && forall|j: int| 0 <= j < inst_prop_index(ps, key) ==> ps[j].key != key,
    decreases ps.len(),
{
    if ps.len() > 0 && ps[0].key != key {
        lemma_inst_prop_index(ps.drop_first(), key);
        let r = inst_prop_index(ps.drop_first(), key);
        if r == -1 {
            assert forall|j: int| 1 <= j < ps.len() implies ps[j].key != key by {
                assert(ps.drop_first()[j - 1] == ps[j]);
            }
        } else {
            assert(0 <= r < ps.drop_first().len());
            assert(ps.drop_first()[r] == ps[r + 1]);
            assert forall|j: int| 1 <= j < r + 1 implies ps[j].key != key by {
                assert(ps.drop_first()[j - 1] == ps[j]);
            }
        }
    }
}

fn upsert_inst(ps: &mut Vec<InstanceProperty>, key: &String, ty: &String, val: &Vec<u8>)
    ensures
        inst_props_view(final(ps)@) == sp_upsert_inst(inst_props_view(old(ps)@), key@, ty@, val@),
{
    let ghost pvs = inst_props_view(ps@);
    let ghost p = InstancePropertyView { key: key@, ty: ty@, val: val@ };
    let n = ps.len();
    let mut i: usize = 0;
    while i < n
        invariant
            n == ps@.len(),
            i <= n,
            ps == old(ps),
            pvs == inst_props_view(ps@),
            p == (InstancePropertyView { key: key@, ty: ty@, val: val@ }),
            forall|j: int| 0 <= j < i ==> pvs[j].key != key@,
        decreases n - i,
    {
        if ps[i].key == *key {
            proof {
                lemma_inst_prop_index(pvs, key@);
                assert(pvs[i as int] == ps@[i as int]@);
                assert(pvs[i as int].key == key@);
                let idx = inst_prop_index(pvs, key@);
                if idx == -1 {
                    assert(pvs[i as int].key != key@);
                } else if idx < i {
                    assert(pvs[idx].key == key@);
                } else if idx > i {
                    assert(pvs[i as int].key != key@);
                }
                assert(idx == i);
            }
            let newp = InstanceProperty {
                key: key.clone(),
                type_uri: ty.clone(),
                value: copy_bytes(val),
            };
            proof {
                assert(newp@ =~= p);
            }
            ps.set(i, newp);
            proof {
                assert forall|j: int| 0 <= j < ps@.len() implies inst_props_view(ps@)[j]
                    == pvs.update(i as int, p)[j] by {
                    assert(inst_props_view(ps@)[j] == ps@[j]@);
                    if j == i {
                        assert(ps@[j]@ == p);
                    } else {
                        assert(ps@[j] == old(ps)@[j]);
                    }
                }
                assert(inst_props_view(ps@) =~= pvs.update(i as int, p));
            }
            return ;
        }
        i += 1;
    }
    proof {
        lemma_inst_prop_index(pvs, key@);
        if inst_prop_index(pvs, key@) >= 0 {
            assert(pvs[inst_prop_index(pvs, key@)].key == key@);
            assert(false);
        }
    }
    let newp = InstanceProperty { key: key.clone(), type_uri: ty.clone(), value: copy_bytes(val) };
    proof {
        assert(newp@ =~= p);
    }
    ps.push(newp);
    proof {
        assert forall|j: int| 0 <= j < ps@.len() implies inst_props_view(ps@)[j] == pvs.push(p)[j]
            by {
            assert(inst_props_view(ps@)[j] == ps@[j]@);
            if j < pvs.len() {
                assert(ps@[j] == old(ps)@[j]);
            } else {
                assert(ps@[j]@ == p);
            }
        }
        assert(inst_props_view(ps@) =~= pvs.push(p));
    }
}

fn inst_to_entries(ps: &Vec<InstanceProperty>) -> (r: Vec<RawEntry>)
    ensures
        entries_view(r@) == inst_entries(inst_props_view(ps@)),
{
    let n = ps.len();
    let mut out: Vec<RawEntry> = Vec::new();
    let mut i: usize = 0;
    while i < n
        invariant
            n == ps@.len(),
            i <= n,
            out@.len() == i,
            forall|j: int|
                0 <= j < i ==> #[trigger] out@[j]@ == inst_entries(inst_props_view(ps@))[j],
        decreases n - i,
    {
        let p = &ps[i];
        let e = RawEntry { name: p.key.clone(), ty: p.type_uri.clone(), val: copy_bytes(&p.value) };
        proof {
            assert(e@ =~= inst_entries(inst_props_view(ps@))[i as int]);
        }
        out.push(e);
        i += 1;
    }
    proof {
        assert(entries_view(out@) =~= inst_entries(inst_props_view(ps@)));
    }
    out
}

fn capture_ports<G: GetValue>(symbols: &Vec<String>, g: &mut G) -> (r: Vec<PortValue>)
    ensures
        r@.len() == symbols@.len(),
        forall|i: int| 0 <= i < r@.len() ==> #[trigger] ports_view(r@)[i].sym == symbols@[i]@,
{
    let n = symbols.len();
    let mut out: Vec<PortValue> = Vec::new();
    let mut i: usize = 0;
    while i < n
        invariant
            n == symbols@.len(),
            i <= n,
            out@.len() == i,
            forall|j: int| 0 <= j < i ==> #[trigger] out@[j]@.sym == symbols@[j]@,
        decreases n - i,
    {
        let sym = &symbols[i];
        let (ty, val) = g.get_value(sym.as_str());
        out.push(PortValue { symbol: sym.clone(), type_: ty, value: val });
        i += 1;
    }
    proof {
        assert(forall|i: int| 0 <= i < out@.len() ==> ports_view(out@)[i] == out@[i]@);
    }
    out
}

pub open spec fn states_view(ss: Seq<State>) -> Seq<StateView> {
    Seq::new(ss.len(), |i: int| ss[i]@)
}

/// Where a subject identity first occurs among loaded documents, or -1.
pub open spec fn world_find(w: Seq<StateView>, subject: Seq<char>) -> int
    decreases w.len(),
{
    if w.len() == 0 {
        -1
    } else if w[0].uri == Some(subject) {
        0
    } else {
        let r = world_find(w.drop_first(), subject);
        if r == -1 {
            -1
        } else {
            r + 1
        }
    }
}

proof fn lemma_world_find(w: Seq<StateView>, subject: Seq<char>, i: int)
    requires
        0 <= i < w.len(),
        w[i].uri == Some(subject),
        forall|j: int| 0 <= j < i ==> w[j].uri != Some(subject),
    ensures
        world_find(w, subject) == i,
    decreases w.len(),
{
    if i == 0 {
    } else {
        assert(w[0].uri != Some(subject));
        assert(w.drop_first()[i - 1] == w[i]);
        assert forall|j: int| 0 <= j < i - 1 implies w.drop_first()[j].uri != Some(subject) by {
            assert(w.drop_first()[j] == w[j + 1]);
        }
        lemma_world_find(w.drop_first(), subject, i - 1);
    }
}

proof fn lemma_world_find_absent(w: Seq<StateView>, subject: Seq<char>)
    requires
        forall|j: int| 0 <= j < w.len() ==> w[j].uri != Some(subject),
    ensures
        world_find(w, subject) == -1,
    decreases w.len(),
{
    if w.len() > 0 {
        assert forall|j: int| 0 <= j < w.drop_first().len() implies w.drop_first()[j].uri != Some(
            subject,
        ) by {
            assert(w.drop_first()[j] == w[j + 1]);
        }
        lemma_world_find_absent(w.drop_first(), subject);
    }
}

fn copy_props(ps: &Vec<Property>) -> (r: Vec<Property>)
    ensures
        props_view(r@) == props_view(ps@),
{
    let n = ps.len();
    let mut out: Vec<Property> = Vec::new();
    let mut i: usize = 0;
    while i < n
        invariant
            n == ps@.len(),
            i <= n,
            out@.len() == i,
            forall|j: int| 0 <= j < i ==> #[trigger] out@[j]@ == ps@[j]@,
        decreases n - i,
    {
        let p = &ps[i];
        let c = Property { key: p.key, type_: p.type_, value: copy_bytes(&p.value) };
        proof {
            assert(c@ =~= ps@[i as int]@);
        }
        out.push(c);
        i += 1;
    }
    proof {
        assert(props_view(out@) =~= props_view(ps@));
    }
    out
}

fn copy_ports(ps: &Vec<PortValue>) -> (r: Vec<PortValue>)
    ensures
        ports_view(r@) == ports_view(ps@),
{
    let n = ps.len();
    let mut out: Vec<PortValue> = Vec::new();
    let mut i: usize = 0;
    while i < n
        invariant
            n == ps@.len(),
            i <= n,
            out@.len() == i,
            forall|j: int| 0 <= j < i ==> #[trigger] out@[j]@ == ps@[j]@,
        decreases n - i,
    {
        let p = &ps[i];
        let c = PortValue { symbol: p.symbol.clone(), type_: p.type_, value: copy_bytes(&p.value) };
        proof {
            assert(c@ =~= ps@[i as int]@);
        }
        out.push(c);
        i += 1;
    }
    proof {
        assert(ports_view(out@) =~= ports_view(ps@));
    }
    out
}

fn copy_state(s: &State) -> (r: State)
    ensures
        r@ == s@,
{
    let uri = match &s.uri {
        Some(u) => Some(u.clone()),
        None => None,
    };
    let label = match &s.label {
        Some(l) => Some(l.clone()),
        None => None,
    };
    let r = State {
        plugin_uri: s.plugin_uri.clone(),
        uri,
        label,
        props: copy_props(&s.props),
        port_values: copy_ports(&s.port_values),
        metadata: copy_props(&s.metadata),
    };
    proof {
        assert(r@ =~= s@);
    }
    r
}

/// Every stored tag of a snapshot was issued by the mapping.
pub open spec fn props_tags_known(ps: Seq<PropertyView>, m: Seq<Seq<char>>) -> bool {
    forall|i: int|
        0 <= i < ps.len() ==> 1 <= (#[trigger] ps[i]).key <= m.len() && 1 <= ps[i].ty <= m.len()
}

pub open spec fn ports_tags_known(ps: Seq<PortValueView>, m: Seq<Seq<char>>) -> bool {
    forall|i: int| 0 <= i < ps.len() ==> 1 <= (#[trigger] ps[i]).ty <= m.len()
}

pub open spec fn state_tags_known(sv: StateView, m: Seq<Seq<char>>) -> bool {
    &&& props_tags_known(sv.props, m)
    &&& ports_tags_known(sv.ports, m)
    &&& props_tags_known(sv.metadata, m)
}

/// Every string and payload of a snapshot fits the wire format. True of any
/// snapshot held in memory; stated so the round trip can be put for arbitrary
/// snapshot content.
pub open spec fn state_fits(sv: StateView) -> bool {
    &&& str_fits(sv.plugin_uri)
    &&& (sv.label matches Some(l) ==> str_fits(l))
    &&& sv.props.len() < pow16(16)
    &&& sv.ports.len() < pow16(16)
    &&& sv.metadata.len() < pow16(16)
    &&& forall|i: int| 0 <= i < sv.props.len() ==> crate::codec::blob_fits((#[trigger] sv.props[i]).val)
    &&& forall|i: int| 0 <= i < sv.metadata.len() ==> crate::codec::blob_fits((#[trigger] sv.metadata[i]).val)
    &&& forall|i: int|
        0 <= i < sv.ports.len() ==> str_fits((#[trigger] sv.ports[i]).sym) && crate::codec::blob_fits(
            sv.ports[i].val,
        )
}

/// Every entry string of the mapping fits the wire format. True of any
/// mapping held in memory.
pub open spec fn map_fits(m: Seq<Seq<char>>) -> bool {
    forall|i: int| 0 <= i < m.len() ==> str_fits(#[trigger] m[i])
}

/// Translating stored properties out through a well-formed mapping and back
/// in again is the identity, and issues nothing new.
proof fn lemma_unmap_intern_props(ps: Seq<PropertyView>, m: Seq<Seq<char>>)
    requires
        map_view_wf(m),
        props_tags_known(ps, m),
    ensures
        sp_unmap_props(ps, m) matches Some(es) && es.len() == ps.len() && (forall|i: int|
            0 <= i < ps.len() ==> sp_unmap_prop(ps[i], m) == Some(#[trigger] es[i]))
            && sp_intern_props(es, m) == (ps, m),
    decreases ps.len(),
{
    if ps.len() == 0 {
        assert(sp_unmap_props(ps, m) == Some(Seq::<RawEntryView>::empty()));
        assert(sp_intern_props(Seq::<RawEntryView>::empty(), m) == (
            Seq::<PropertyView>::empty(),
            m,
        ));
        assert(ps =~= Seq::<PropertyView>::empty());
    } else {
        let p0 = ps[0];
        assert(1 <= p0.key <= m.len() && 1 <= p0.ty <= m.len());
        let e0 = RawEntryView { name: m[p0.key - 1], ty: m[p0.ty - 1], val: p0.val };
        assert(sp_unmap_prop(p0, m) == Some(e0));
        assert(props_tags_known(ps.drop_first(), m)) by {
            assert(forall|i: int| 0 <= i < ps.drop_first().len() ==> ps.drop_first()[i] == ps[i + 1]);
        }
        lemma_unmap_intern_props(ps.drop_first(), m);
        let rest = sp_unmap_props(ps.drop_first(), m).unwrap();
        let es = seq![e0] + rest;
        assert(sp_unmap_props(ps, m) == Some(es));
        crate::urid::lemma_unmap_map_inverse(m, p0.key);
        crate::urid::lemma_unmap_map_inverse(m, p0.ty);
        assert(es[0] == e0);
        assert(es.drop_first() =~= rest);
        let k = spec_map_urid(m, e0.name);
        assert(k == p0.key);
        assert(spec_map_state(m, e0.name) == m);
        assert(spec_map_urid(m, e0.ty) == p0.ty);
        assert(spec_map_state(m, e0.ty) == m);
        assert(sp_intern_props(es, m).0 == seq![PropertyView {
            key: p0.key,
            ty: p0.ty,
            val: p0.val,
        }] + ps.drop_first());
        assert(PropertyView { key: p0.key, ty: p0.ty, val: p0.val } =~= p0);
        assert(seq![p0] + ps.drop_first() =~= ps);
        assert(forall|i: int|
            1 <= i < ps.len() ==> ps[i] == ps.drop_first()[i - 1] && es[i] == rest[i - 1]);
    }
}

proof fn lemma_unmap_intern_ports(ps: Seq<PortValueView>, m: Seq<Seq<char>>)
    requires
        map_view_wf(m),
        ports_tags_known(ps, m),
    ensures
        sp_unmap_ports(ps, m) matches Some(es) && es.len() == ps.len() && (forall|i: int|
            0 <= i < ps.len() ==> sp_unmap_port(ps[i], m) == Some(#[trigger] es[i]))
            && sp_intern_ports(es, m) == (ps, m),
    decreases ps.len(),
{
    if ps.len() == 0 {
        assert(sp_unmap_ports(ps, m) == Some(Seq::<RawEntryView>::empty()));
        assert(sp_intern_ports(Seq::<RawEntryView>::empty(), m) == (
            Seq::<PortValueView>::empty(),
            m,
        ));
        assert(ps =~= Seq::<PortValueView>::empty());
    } else {
        let p0 = ps[0];
        assert(1 <= p0.ty <= m.len());
        let e0 = RawEntryView { name: p0.sym, ty: m[p0.ty - 1], val: p0.val };
        assert(sp_unmap_port(p0, m) == Some(e0));
        assert(ports_tags_known(ps.drop_first(), m)) by {
            assert(forall|i: int| 0 <= i < ps.drop_first().len() ==> ps.drop_first()[i] == ps[i + 1]);
        }
        lemma_unmap_intern_ports(ps.drop_first(), m);
        let rest = sp_unmap_ports(ps.drop_first(), m).unwrap();
        let es = seq![e0] + rest;
        assert(sp_unmap_ports(ps, m) == Some(es));
        crate::urid::lemma_unmap_map_inverse(m, p0.ty);
        assert(es[0] == e0);
        assert(es.drop_first() =~= rest);
        assert(spec_map_urid(m, e0.ty) == p0.ty);
        assert(spec_map_state(m, e0.ty) == m);
        assert(PortValueView { sym: e0.name, ty: p0.ty, val: p0.val } =~= p0);
        assert(seq![p0] + ps.drop_first() =~= ps);
        assert(forall|i: int|
            1 <= i < ps.len() ==> ps[i] == ps.drop_first()[i - 1] && es[i] == rest[i - 1]);
    }
}

/// Loading what a snapshot serialized to gives the snapshot back. A snapshot
/// all of whose tags the mapping issued has a document form under any subject
/// identity, and loading that document with the same mapping yields the
/// original snapshot with the subject as its identity — equal under
/// [`spec_equals`], same plugin identity, same label — and issues nothing
/// new.
pub proof fn lemma_serialized_loads_back(sv: StateView, m: Seq<Seq<char>>, uri: Seq<char>)
    requires
        map_view_wf(m),
        state_tags_known(sv, m),
    ensures
        sp_unmap_doc(sv, m, uri) matches Some(d) && {
            &&& sp_intern_doc(d, m) == ((StateView { uri: Some(uri), ..sv }), m)
            &&& spec_equals(sp_intern_doc(d, m).0, sv)
            &&& spec_equals(sv, sp_intern_doc(d, m).0)
            &&& sp_intern_doc(d, m).0.plugin_uri == sv.plugin_uri
            &&& sp_intern_doc(d, m).0.uri == Some(uri)
            &&& sp_intern_doc(d, m).0.label == sv.label
        },
{
    lemma_unmap_intern_props(sv.props, m);
    lemma_unmap_intern_ports(sv.ports, m);
    lemma_unmap_intern_props(sv.metadata, m);
    let props = sp_unmap_props(sv.props, m).unwrap();
    let ports = sp_unmap_ports(sv.ports, m).unwrap();
    let metadata = sp_unmap_props(sv.metadata, m).unwrap();
    let d = DocView { plugin_uri: sv.plugin_uri, uri, label: sv.label, props, ports, metadata };
    assert(sp_unmap_doc(sv, m, uri) == Some(d));
    assert(sp_intern_doc(d, m).0 =~= (StateView { uri: Some(uri), ..sv }));
}

/// Round trip. A snapshot all of whose tags the mapping issued serializes
/// under any subject identity, the document is valid UTF-8 text, carrying it
/// through a string keeps its bytes, it parses back to the same document, and
/// loading that document with the same mapping yields the original snapshot
/// with the subject as its identity — equal under [`spec_equals`], same
/// plugin identity, same label, and the mapping untouched.
pub proof fn lemma_state_round_trip(sv: StateView, m: Seq<Seq<char>>, uri: Seq<char>)
    requires
        map_view_wf(m),
        map_fits(m),
        sv.plugin_uri.len() > 0,
        state_fits(sv),
        str_fits(uri),
        state_tags_known(sv, m),
    ensures
        sp_unmap_doc(sv, m, uri) matches Some(d) && {
            &&& doc_wf(d)
            &&& valid_utf8(enc_doc(d))
            &&& encode_utf8(decode_utf8(enc_doc(d))) == enc_doc(d)
            &&& sp_doc(enc_doc(d)) == Some(d)
            &&& sp_intern_doc(d, m) == ((StateView { uri: Some(uri), ..sv }), m)
            &&& spec_equals(sp_intern_doc(d, m).0, sv)
            &&& sp_intern_doc(d, m).0.plugin_uri == sv.plugin_uri
            &&& sp_intern_doc(d, m).0.uri == Some(uri)
            &&& sp_intern_doc(d, m).0.label == sv.label
        },
{
    lemma_serialized_loads_back(sv, m, uri);
    lemma_unmap_intern_props(sv.props, m);
    lemma_unmap_intern_ports(sv.ports, m);
    lemma_unmap_intern_props(sv.metadata, m);
    let props = sp_unmap_props(sv.props, m).unwrap();
    let ports = sp_unmap_ports(sv.ports, m).unwrap();
    let metadata = sp_unmap_props(sv.metadata, m).unwrap();
    let d = DocView { plugin_uri: sv.plugin_uri, uri, label: sv.label, props, ports, metadata };
    assert(sp_unmap_doc(sv, m, uri) == Some(d));

    assert(doc_wf(d)) by {
        assert forall|i: int| 0 <= i < props.len() implies crate::codec::entry_fits(
            #[trigger] props[i],
        ) by {
            assert(sp_unmap_prop(sv.props[i], m) == Some(props[i]));
            assert(props[i].name == m[sv.props[i].key - 1]);
            assert(props[i].ty == m[sv.props[i].ty - 1]);
        }
        assert forall|i: int| 0 <= i < ports.len() implies crate::codec::entry_fits(
            #[trigger] ports[i],
        ) by {
            assert(sp_unmap_port(sv.ports[i], m) == Some(ports[i]));
            assert(ports[i].ty == m[sv.ports[i].ty - 1]);
        }
        assert forall|i: int| 0 <= i < metadata.len() implies crate::codec::entry_fits(
            #[trigger] metadata[i],
        ) by {
            assert(sp_unmap_prop(sv.metadata[i], m) == Some(metadata[i]));
            assert(metadata[i].name == m[sv.metadata[i].key - 1]);
            assert(metadata[i].ty == m[sv.metadata[i].ty - 1]);
        }
    }
    lemma_enc_doc_valid_utf8(d);
    vstd::utf8::decode_utf8_encode_utf8(enc_doc(d));
    crate::codec::lemma_parse_enc_doc(d);
}

/// Changing a snapshot's label or its identity leaves its configuration
/// identity untouched: both are excluded from equality.
pub proof fn lemma_label_excluded(sv: StateView, l: Option<Seq<char>>, u: Option<Seq<char>>)
    ensures
        spec_equals(StateView { label: l, ..sv }, sv),
        spec_equals(StateView { uri: u, ..sv }, sv),
        spec_equals(sv, sv),
{
}

proof fn lemma_prefix_transitive(a: Seq<Seq<char>>, b: Seq<Seq<char>>, c: Seq<Seq<char>>)
    requires
        a.is_prefix_of(b),
        b.is_prefix_of(c),
    ensures
        a.is_prefix_of(c),
{
    assert(a =~= c.subrange(0, a.len() as int)) by {
        assert(forall|i: int| 0 <= i < a.len() ==> a[i] == b[i] && b[i] == c[i]);
    }
}

/// Interning only grows the mapping table, and never beyond its capacity.
proof fn lemma_intern_props_extends(es: Seq<RawEntryView>, m: Seq<Seq<char>>)
    requires
        m.len() <= u32::MAX,
    ensures
        m.is_prefix_of(sp_intern_props(es, m).1),
        sp_intern_props(es, m).1.len() <= u32::MAX,
    decreases es.len(),
{
    if es.len() == 0 {
        assert(m =~= m.subrange(0, m.len() as int));
    } else {
        let m1 = spec_map_state(m, es[0].name);
        let m2 = spec_map_state(m1, es[0].ty);
        crate::urid::lemma_map_state_extends(m, es[0].name);
        crate::urid::lemma_map_state_extends(m1, es[0].ty);
        assert(m1.len() <= u32::MAX);
        assert(m2.len() <= u32::MAX);
        lemma_intern_props_extends(es.drop_first(), m2);
        lemma_prefix_transitive(m1, m2, sp_intern_props(es.drop_first(), m2).1);
        lemma_prefix_transitive(m, m1, sp_intern_props(es.drop_first(), m2).1);
    }
}

/// One mapping call, once absorbed into a later table, changes nothing and
/// returns the same integer.
proof fn lemma_map_call_stable(mb: Seq<Seq<char>>, m2: Seq<Seq<char>>, u: Seq<char>)
    requires
        spec_map_state(mb, u).is_prefix_of(m2),
        m2.len() <= u32::MAX,
    ensures
        spec_map_urid(m2, u) == spec_map_urid(mb, u),
        spec_map_state(m2, u) == m2,
{
    let ma = spec_map_state(mb, u);
    if mb.contains(u) {
        crate::urid::lemma_prefix_preserves_urid(mb, m2, u);
        assert(spec_map_state(m2, u) == m2);
    } else if mb.len() < u32::MAX as nat {
        crate::urid::lemma_map_state_contains(mb, u);
        crate::urid::lemma_prefix_preserves_urid(ma, m2, u);
        assert(spec_map_state(m2, u) == m2);
    } else {
        assert(ma == mb);
        assert(mb.len() == u32::MAX as nat);
        assert(m2.len() == mb.len());
        assert(m2 =~= mb);
        assert(spec_map_urid(m2, u) == spec_map_urid(mb, u));
        assert(spec_map_state(m2, u) == m2);
    }
}

/// Mapping determinism: interning the same records twice through the same
/// mapping service gives identical integer tags the second time — the first
/// pass settles every identifier, so a second capture of the same instance
/// state serializes to type-identifier-equivalent output.
pub proof fn lemma_capture_deterministic(es: Seq<RawEntryView>, m: Seq<Seq<char>>)
    requires
        m.len() <= u32::MAX,
    ensures
        sp_intern_props(es, sp_intern_props(es, m).1) == sp_intern_props(es, m),
    decreases es.len(),
{
    if es.len() > 0 {
        let ma = spec_map_state(m, es[0].name);
        let mb = spec_map_state(ma, es[0].ty);
        crate::urid::lemma_map_state_extends(m, es[0].name);
        crate::urid::lemma_map_state_extends(ma, es[0].ty);
        assert(ma.len() <= u32::MAX);
        assert(mb.len() <= u32::MAX);
        lemma_intern_props_extends(es.drop_first(), mb);
        let m1 = sp_intern_props(es.drop_first(), mb).1;
        assert(sp_intern_props(es, m).1 == m1);
        lemma_prefix_transitive(ma, mb, m1);
        lemma_map_call_stable(m, m1, es[0].name);
        lemma_map_call_stable(ma, m1, es[0].ty);
        lemma_capture_deterministic(es.drop_first(), mb);
        assert(spec_map_state(m1, es[0].name) == m1);
        assert(spec_map_state(m1, es[0].ty) == m1);
        assert(sp_intern_props(es.drop_first(), m1) == sp_intern_props(es.drop_first(), mb));
        assert(sp_intern_props(es, m1).0 =~= sp_intern_props(es, m).0);
        assert(sp_intern_props(es, m1).1 == m1);
    }
}

/// What capture and load store as tags is serializable: unless the mapping
/// ran out of integers, every tag a property interning issued is an issued
/// identifier of the mapping it left behind — so a captured or loaded
/// snapshot meets the hypotheses of [`lemma_state_round_trip`].
pub proof fn lemma_intern_props_tags_known(es: Seq<RawEntryView>, m: Seq<Seq<char>>)
    requires
        m.len() <= u32::MAX,
    ensures
        sp_intern_props(es, m).1.len() < u32::MAX ==> props_tags_known(
            sp_intern_props(es, m).0,
            sp_intern_props(es, m).1,
        ),
    decreases es.len(),
{
    if es.len() > 0 {
        let ma = spec_map_state(m, es[0].name);
        let mb = spec_map_state(ma, es[0].ty);
        let k = spec_map_urid(m, es[0].name);
        let t = spec_map_urid(ma, es[0].ty);
        crate::urid::lemma_map_state_extends(m, es[0].name);
        crate::urid::lemma_map_state_extends(ma, es[0].ty);
        lemma_intern_props_extends(es.drop_first(), mb);
        let rest = sp_intern_props(es.drop_first(), mb).0;
        let mf = sp_intern_props(es.drop_first(), mb).1;
        if mf.len() < u32::MAX {
            crate::urid::lemma_map_state_contains(m, es[0].name);
            crate::urid::lemma_map_state_contains(ma, es[0].ty);
            lemma_intern_props_tags_known(es.drop_first(), mb);
            let ps = sp_intern_props(es, m).0;
            let pv = PropertyView { key: k, ty: t, val: es[0].val };
            assert(ps == seq![pv] + rest);
            assert(1 <= k <= ma.len() && ma.len() <= mf.len());
            assert(1 <= t <= mb.len() && mb.len() <= mf.len());
            assert forall|i: int|
                0 <= i < ps.len() implies 1 <= (#[trigger] ps[i]).key <= mf.len() && 1 <= ps[i].ty
                <= mf.len() by {
                if i == 0 {
                    assert(ps[0] == pv);
                } else {
                    assert(ps[i] == rest[i - 1]);
                }
            }
        }
    }
}

/// The port-value analogue of [`lemma_intern_props_tags_known`], for the
/// tags that loading a document issues for port values.
pub proof fn lemma_intern_ports_tags_known(es: Seq<RawEntryView>, m: Seq<Seq<char>>)
    requires
        m.len() <= u32::MAX,
    ensures
        sp_intern_ports(es, m).1.len() < u32::MAX ==> ports_tags_known(
            sp_intern_ports(es, m).0,
            sp_intern_ports(es, m).1,
        ),
    decreases es.len(),
{
    if es.len() > 0 {
        let ma = spec_map_state(m, es[0].ty);
        let t = spec_map_urid(m, es[0].ty);
        crate::urid::lemma_map_state_extends(m, es[0].ty);
        lemma_intern_ports_extends(es.drop_first(), ma);
        let rest = sp_intern_ports(es.drop_first(), ma).0;
        let mf = sp_intern_ports(es.drop_first(), ma).1;
        if mf.len() < u32::MAX {
            crate::urid::lemma_map_state_contains(m, es[0].ty);
            lemma_intern_ports_tags_known(es.drop_first(), ma);
            let ps = sp_intern_ports(es, m).0;
            let pv = PortValueView { sym: es[0].name, ty: t, val: es[0].val };
            assert(ps == seq![pv] + rest);
            assert(1 <= t <= ma.len() && ma.len() <= mf.len());
            assert forall|i: int| 0 <= i < ps.len() implies 1 <= (#[trigger] ps[i]).ty <= mf.len()
                by {
                if i == 0 {
                    assert(ps[0] == pv);
                } else {
                    assert(ps[i] == rest[i - 1]);
                }
            }
        }
    }
}

/// Interning port records only grows the mapping table, and never beyond its
/// capacity.
proof fn lemma_intern_ports_extends(es: Seq<RawEntryView>, m: Seq<Seq<char>>)
    requires
        m.len() <= u32::MAX,
    ensures
        m.is_prefix_of(sp_intern_ports(es, m).1),
        sp_intern_ports(es, m).1.len() <= u32::MAX,
    decreases es.len(),
{
    if es.len() == 0 {
        assert(m =~= m.subrange(0, m.len() as int));
    } else {
        let m1 = spec_map_state(m, es[0].ty);
        crate::urid::lemma_map_state_extends(m, es[0].ty);
        assert(m1.len() <= u32::MAX);
        lemma_intern_ports_extends(es.drop_first(), m1);
        lemma_prefix_transitive(m, m1, sp_intern_ports(es.drop_first(), m1).1);
    }
}

} // verus!
