//! The document codec: a state snapshot's serialized form. A document is a
//! single UTF-8 text. Numbers and binary payloads are written as fixed-width
//! hexadecimal ASCII; identifier strings are written length-prefixed as their
//! own UTF-8 bytes. Parsing fails closed: a malformed document yields nothing,
//! never a partial result.

use vstd::prelude::*;
use vstd::utf8::*;
use crate::hex::{
    enc_num, enc_pairs, lemma_ascii_valid_utf8, lemma_enc_num, lemma_enc_pairs,
    lemma_parse_enc_num, lemma_parse_enc_pairs, parse_num, parse_pairs, pow16,
    push_num_digits, push_pairs, sp_num, sp_pairs,
};

verus! {

/// One record of a document: a property (`name` is the key identifier), a
/// port value (`name` is the port symbol) or a metadata entry, with its value
/// bytes and the string form of its type tag.
#[verifier::ext_equal]
pub ghost struct RawEntryView {
    pub name: Seq<char>,
    pub ty: Seq<char>,
    pub val: Seq<u8>,
}

/// The content of one serialized document: which plugin the state belongs to,
/// the subject identity it was written under, an optional label, and the
/// three record lists.
#[verifier::ext_equal]
pub ghost struct DocView {
    pub plugin_uri: Seq<char>,
    pub uri: Seq<char>,
    pub label: Option<Seq<char>>,
    pub props: Seq<RawEntryView>,
    pub ports: Seq<RawEntryView>,
    pub metadata: Seq<RawEntryView>,
}

/// A string fits the wire format when its UTF-8 length fits the fixed-width
/// length field.
pub open spec fn str_fits(s: Seq<char>) -> bool {
    encode_utf8(s).len() < pow16(16)
}

pub open spec fn blob_fits(v: Seq<u8>) -> bool {
    v.len() < pow16(16)
}

pub open spec fn entry_fits(e: RawEntryView) -> bool {
    str_fits(e.name) && str_fits(e.ty) && blob_fits(e.val)
}

pub open spec fn entries_fit(es: Seq<RawEntryView>) -> bool {
    &&& forall|i: int| 0 <= i < es.len() ==> entry_fits(#[trigger] es[i])
    &&& es.len() < pow16(16)
}

/// A document that the wire format can carry: the plugin identity is present
/// and every field fits its length prefix.
pub open spec fn doc_wf(d: DocView) -> bool {
    &&& d.plugin_uri.len() > 0
    &&& str_fits(d.plugin_uri)
    &&& str_fits(d.uri)
    &&& (d.label matches Some(l) ==> str_fits(l))
    &&& entries_fit(d.props)
    &&& entries_fit(d.ports)
    &&& entries_fit(d.metadata)
}

/// A string on the wire: its UTF-8 byte length, then its UTF-8 bytes.
pub open spec fn enc_str(s: Seq<char>) -> Seq<u8> {
    enc_num(encode_utf8(s).len() as int, 16) + encode_utf8(s)
}

pub open spec fn sp_str(b: Seq<u8>, pos: int) -> Option<(Seq<char>, int)> {
    match sp_num(b, pos) {
        None => None,
        Some((n, p)) => if p + n <= b.len() && valid_utf8(b.subrange(p, p + n)) {
            Some((decode_utf8(b.subrange(p, p + n)), p + n))
        } else {
            None
        },
    }
}

/// A byte payload on the wire: its length, then two hexadecimal digits per
/// byte.
pub open spec fn enc_blob(v: Seq<u8>) -> Seq<u8> {
    enc_num(v.len() as int, 16) + enc_pairs(v)
}

pub open spec fn sp_blob(b: Seq<u8>, pos: int) -> Option<(Seq<u8>, int)> {
    match sp_num(b, pos) {
        None => None,
        Some((n, p)) => sp_pairs(b, p, n),
    }
}

/// An optional label: one marker byte, then the string when present.
pub open spec fn enc_opt(l: Option<Seq<char>>) -> Seq<u8> {
    match l {
        None => seq![48u8],
        Some(s) => seq![49u8] + enc_str(s),
    }
}

pub open spec fn sp_opt(b: Seq<u8>, pos: int) -> Option<(Option<Seq<char>>, int)> {
    if 0 <= pos < b.len() {
        if b[pos] == 48 {
            Some((None, pos + 1))
        } else if b[pos] == 49 {
            match sp_str(b, pos + 1) {
                None => None,
                Some((s, p)) => Some((Some(s), p)),
            }
        } else {
            None
        }
    } else {
        None
    }
}

pub open spec fn enc_entry(e: RawEntryView) -> Seq<u8> {
    enc_str(e.name) + enc_str(e.ty) + enc_blob(e.val)
}

pub open spec fn sp_entry(b: Seq<u8>, pos: int) -> Option<(RawEntryView, int)> {
    match sp_str(b, pos) {
        None => None,
        Some((name, p1)) => match sp_str(b, p1) {
            None => None,
            Some((ty, p2)) => match sp_blob(b, p2) {
                None => None,
                Some((val, p3)) => Some((RawEntryView { name, ty, val }, p3)),
            },
        },
    }
}

pub open spec fn enc_entries(es: Seq<RawEntryView>) -> Seq<u8>
    decreases es.len(),
{
    if es.len() == 0 {
        Seq::empty()
    } else {
        enc_entry(es[0]) + enc_entries(es.drop_first())
    }
}

pub open spec fn sp_entries(b: Seq<u8>, pos: int, n: int) -> Option<(Seq<RawEntryView>, int)>
    decreases n,
{
    if n < 0 {
        None
    } else if n == 0 {
        Some((Seq::empty(), pos))
    } else {
        match sp_entry(b, pos) {
            None => None,
            Some((e, p)) => match sp_entries(b, p, n - 1) {
                None => None,
                Some((rest, p2)) => Some((seq![e] + rest, p2)),
            },
        }
    }
}

/// A whole document: plugin identity, subject identity, label, then the
/// counted lists of properties, port values and metadata.
pub open spec fn enc_doc(d: DocView) -> Seq<u8> {
    enc_str(d.plugin_uri) + (enc_str(d.uri) + (enc_opt(d.label) + (enc_num(
        d.props.len() as int,
        16,
    ) + (enc_entries(d.props) + (enc_num(d.ports.len() as int, 16) + (enc_entries(d.ports) + (
    enc_num(d.metadata.len() as int, 16) + enc_entries(d.metadata))))))))
}

/// The parse of a whole document. It fails on anything malformed: a bad
/// length, a bad digit, invalid UTF-8, a missing plugin identity, or trailing
/// bytes after the last record.
pub open spec fn sp_doc(b: Seq<u8>) -> Option<DocView> {
    match sp_str(b, 0) {
        None => None,
        Some((plugin_uri, p1)) => if plugin_uri.len() == 0 {
            None
        } else {
            match sp_str(b, p1) {
                None => None,
                Some((uri, p2)) => match sp_opt(b, p2) {
                    None => None,
                    Some((label, p3)) => match sp_num(b, p3) {
                        None => None,
                        Some((n1, p4)) => match sp_entries(b, p4, n1) {
                            None => None,
                            Some((props, p5)) => match sp_num(b, p5) {
                                None => None,
                                Some((n2, p6)) => match sp_entries(b, p6, n2) {
                                    None => None,
                                    Some((ports, p7)) => match sp_num(b, p7) {
                                        None => None,
                                        Some((n3, p8)) => match sp_entries(b, p8, n3) {
                                            None => None,
                                            Some((metadata, p9)) => if p9 == b.len() {
                                                Some(
                                                    DocView {
                                                        plugin_uri,
                                                        uri,
                                                        label,
                                                        props,
                                                        ports,
                                                        metadata,
                                                    },
                                                )
                                            } else {
                                                None
                                            },
                                        },
                                    },
                                },
                            },
                        },
                    },
                },
            }
        },
    }
}

/// Parsing a string where an encoded string was spliced in gives back exactly
/// that string.
pub proof fn lemma_parse_enc_str(a: Seq<u8>, s: Seq<char>, c: Seq<u8>)
    requires
        str_fits(s),
    ensures
        sp_str(a + enc_str(s) + c, a.len() as int) == Some(
            (s, a.len() + enc_str(s).len() as int),
        ),
{
    let e = encode_utf8(s);
    let b = a + enc_str(s) + c;
    assert(b =~= a + enc_num(e.len() as int, 16) + (e + c));
    lemma_parse_enc_num(a, e.len() as int, e + c);
    let p = a.len() + 16int;
    assert(sp_num(b, a.len() as int) == Some((e.len() as int, p)));
    lemma_enc_num(e.len() as int, 16);
    let a1 = a + enc_num(e.len() as int, 16);
    assert(a1.len() == p);
    assert(b =~= a1 + e + c);
    assert(b.subrange(p, p + e.len()) =~= e) by {
        assert(forall|i: int|
            0 <= i < e.len() ==> (a1 + e + c)[p + i] == e[i]);
    }
    broadcast use encode_utf8_valid_utf8;
    broadcast use encode_utf8_decode_utf8;

    assert(valid_utf8(e));
    assert(decode_utf8(e) == s);
}

pub proof fn lemma_parse_enc_blob(a: Seq<u8>, v: Seq<u8>, c: Seq<u8>)
    requires
        blob_fits(v),
    ensures
        sp_blob(a + enc_blob(v) + c, a.len() as int) == Some(
            (v, a.len() + enc_blob(v).len() as int),
        ),
{
    let b = a + enc_blob(v) + c;
    assert(b =~= a + enc_num(v.len() as int, 16) + (enc_pairs(v) + c));
    lemma_parse_enc_num(a, v.len() as int, enc_pairs(v) + c);
    let p = a.len() + 16int;
    assert(b =~= (a + enc_num(v.len() as int, 16)) + enc_pairs(v) + c);
    lemma_parse_enc_pairs(a + enc_num(v.len() as int, 16), v, c);
    lemma_enc_num(v.len() as int, 16);
    assert((a + enc_num(v.len() as int, 16)).len() == p);
}

pub proof fn lemma_parse_enc_opt(a: Seq<u8>, l: Option<Seq<char>>, c: Seq<u8>)
    requires
        l matches Some(s) ==> str_fits(s),
    ensures
        sp_opt(a + enc_opt(l) + c, a.len() as int) == Some(
            (l, a.len() + enc_opt(l).len() as int),
        ),
{
    let b = a + enc_opt(l) + c;
    match l {
        None => {
            assert(b[a.len() as int] == 48);
        },
        Some(s) => {
            assert(b[a.len() as int] == 49);
            assert(b =~= (a + seq![49u8]) + enc_str(s) + c);
            lemma_parse_enc_str(a + seq![49u8], s, c);
        },
    }
}

pub proof fn lemma_parse_enc_entry(a: Seq<u8>, e: RawEntryView, c: Seq<u8>)
    requires
        entry_fits(e),
    ensures
        sp_entry(a + enc_entry(e) + c, a.len() as int) == Some(
            (e, a.len() + enc_entry(e).len() as int),
        ),
{
    let b = a + enc_entry(e) + c;
    assert(b =~= a + enc_str(e.name) + (enc_str(e.ty) + enc_blob(e.val) + c));
    lemma_parse_enc_str(a, e.name, enc_str(e.ty) + enc_blob(e.val) + c);
    let a1 = a + enc_str(e.name);
    assert(b =~= a1 + enc_str(e.ty) + (enc_blob(e.val) + c));
    lemma_parse_enc_str(a1, e.ty, enc_blob(e.val) + c);
    let a2 = a1 + enc_str(e.ty);
    assert(b =~= a2 + enc_blob(e.val) + c);
    lemma_parse_enc_blob(a2, e.val, c);
}

pub proof fn lemma_parse_enc_entries(a: Seq<u8>, es: Seq<RawEntryView>, c: Seq<u8>)
    requires
        forall|i: int| 0 <= i < es.len() ==> entry_fits(#[trigger] es[i]),
    ensures
        sp_entries(a + enc_entries(es) + c, a.len() as int, es.len() as int) == Some(
            (es, a.len() + enc_entries(es).len() as int),
        ),
    decreases es.len(),
{
    let b = a + enc_entries(es) + c;
    if es.len() == 0 {
        assert(enc_entries(es) =~= Seq::<u8>::empty());
        assert(sp_entries(b, a.len() as int, 0) == Some(
            (Seq::<RawEntryView>::empty(), a.len() as int),
        ));
        assert(es =~= Seq::<RawEntryView>::empty());
    } else {
        let e0 = es[0];
        let rest = es.drop_first();
        let x = enc_entry(e0);
        let y = enc_entries(rest);
        assert(enc_entries(es) == x + y);
        vstd::seq_lib::lemma_concat_associative(a, x, y);
        assert(b == ((a + x) + y) + c);
        let a1 = a + x;
        vstd::seq_lib::lemma_concat_associative(a1, y, c);
        assert(b == a1 + (y + c));
        assert(b == a + x + (y + c)) by {
            vstd::seq_lib::lemma_concat_associative(a, x, y + c);
        }
        lemma_parse_enc_entry(a, e0, y + c);
        assert(forall|i: int| 0 <= i < rest.len() ==> entry_fits(#[trigger] rest[i]));
        lemma_parse_enc_entries(a1, rest, c);
        assert(seq![e0] + rest =~= es);
        assert(a1.len() + y.len() == a.len() + enc_entries(es).len());
    }
}

/// Appending a record extends its list's encoding at the end.
pub proof fn lemma_enc_entries_push(es: Seq<RawEntryView>, e: RawEntryView)
    ensures
        enc_entries(es.push(e)) == enc_entries(es) + enc_entry(e),
    decreases es.len(),
{
    if es.len() == 0 {
        reveal_with_fuel(enc_entries, 2);
        assert(es.push(e)[0] == e);
        assert(es.push(e).drop_first() =~= Seq::<RawEntryView>::empty());
        assert(enc_entries(es.push(e).drop_first()) == enc_entries(
            Seq::<RawEntryView>::empty(),
        ));
        assert(enc_entries(es.push(e)) =~= enc_entry(e) + Seq::<u8>::empty());
        assert(enc_entry(e) + Seq::<u8>::empty() =~= enc_entry(e));
        assert(enc_entries(es) + enc_entry(e) =~= enc_entry(e));
    } else {
        assert(es.push(e)[0] == es[0]);
        assert(es.push(e).drop_first() =~= es.drop_first().push(e));
        lemma_enc_entries_push(es.drop_first(), e);
        assert(enc_entries(es.push(e)) == enc_entry(es[0]) + (enc_entries(es.drop_first())
            + enc_entry(e)));
        assert(enc_entry(es[0]) + (enc_entries(es.drop_first()) + enc_entry(e)) =~= (enc_entry(
            es[0],
        ) + enc_entries(es.drop_first())) + enc_entry(e));
    }
}

/// The round trip of the pure codec: a well-formed document parses back from
/// its own encoding, exactly.
/// Parse positions of the nine segments of an encoded document.
pub open spec fn dp1(d: DocView) -> int {
    enc_str(d.plugin_uri).len() as int
}

pub open spec fn dp2(d: DocView) -> int {
    dp1(d) + enc_str(d.uri).len()
}

pub open spec fn dp3(d: DocView) -> int {
    dp2(d) + enc_opt(d.label).len()
}

pub open spec fn dp4(d: DocView) -> int {
    dp3(d) + 16
}

pub open spec fn dp5(d: DocView) -> int {
    dp4(d) + enc_entries(d.props).len()
}

pub open spec fn dp6(d: DocView) -> int {
    dp5(d) + 16
}

pub open spec fn dp7(d: DocView) -> int {
    dp6(d) + enc_entries(d.ports).len()
}

pub open spec fn dp8(d: DocView) -> int {
    dp7(d) + 16
}


proof fn lemma_doc_positions_head(d: DocView)
    requires
        doc_wf(d),
    ensures
        sp_str(enc_doc(d), 0) == Some((d.plugin_uri, dp1(d))),
        sp_str(enc_doc(d), dp1(d)) == Some((d.uri, dp2(d))),
        sp_opt(enc_doc(d), dp2(d)) == Some((d.label, dp3(d))),
        sp_num(enc_doc(d), dp3(d)) == Some((d.props.len() as int, dp4(d))),
        sp_entries(enc_doc(d), dp4(d), d.props.len() as int) == Some((d.props, dp5(d))),
{
    let x1 = enc_str(d.plugin_uri);
    let x2 = enc_str(d.uri);
    let x3 = enc_opt(d.label);
    let x4 = enc_num(d.props.len() as int, 16);
    let x5 = enc_entries(d.props);
    let x6 = enc_num(d.ports.len() as int, 16);
    let x7 = enc_entries(d.ports);
    let x8 = enc_num(d.metadata.len() as int, 16);
    let x9 = enc_entries(d.metadata);
    let b = enc_doc(d);
    let e0 = Seq::<u8>::empty();
    lemma_enc_num(d.props.len() as int, 16);

    // The encoding is right-grouped, so at each parse position the document
    // is (prefix read so far) + (segment) + (rest): one associativity step
    // moves the boundary one segment to the right.
    let c6 = x7 + (x8 + x9);
    let c5 = x6 + c6;
    let c4 = x5 + c5;
    let c3 = x4 + c4;
    let c2 = x3 + c3;
    let c1 = x2 + c2;

    assert(b == x1 + c1);
    let a0 = e0;
    assert(a0 + x1 =~= x1);
    assert(b == a0 + x1 + c1);
    lemma_parse_enc_str(a0, d.plugin_uri, c1);
    let a1 = a0 + x1;
    assert(a1.len() == dp1(d));

    vstd::seq_lib::lemma_concat_associative(a1, x2, c2);
    assert(b == a1 + x2 + c2);
    lemma_parse_enc_str(a1, d.uri, c2);
    let a2 = a1 + x2;
    assert(a2.len() == dp2(d));

    vstd::seq_lib::lemma_concat_associative(a2, x3, c3);
    assert(b == a2 + x3 + c3);
    lemma_parse_enc_opt(a2, d.label, c3);
    let a3 = a2 + x3;
    assert(a3.len() == dp3(d));

    vstd::seq_lib::lemma_concat_associative(a3, x4, c4);
    assert(b == a3 + x4 + c4);
    lemma_parse_enc_num(a3, d.props.len() as int, c4);
    let a4 = a3 + x4;
    assert(a4.len() == dp4(d));

    vstd::seq_lib::lemma_concat_associative(a4, x5, c5);
    assert(b == a4 + x5 + c5);
    lemma_parse_enc_entries(a4, d.props, c5);
    let a5 = a4 + x5;
    assert(a5.len() == dp5(d));
}

proof fn lemma_doc_positions_tail(d: DocView)
    requires
        doc_wf(d),
    ensures
        sp_num(enc_doc(d), dp5(d)) == Some((d.ports.len() as int, dp6(d))),
        sp_entries(enc_doc(d), dp6(d), d.ports.len() as int) == Some((d.ports, dp7(d))),
        sp_num(enc_doc(d), dp7(d)) == Some((d.metadata.len() as int, dp8(d))),
        sp_entries(enc_doc(d), dp8(d), d.metadata.len() as int) == Some(
            (d.metadata, enc_doc(d).len() as int),
        ),
{
    let x1 = enc_str(d.plugin_uri);
    let x2 = enc_str(d.uri);
    let x3 = enc_opt(d.label);
    let x4 = enc_num(d.props.len() as int, 16);
    let x5 = enc_entries(d.props);
    let x6 = enc_num(d.ports.len() as int, 16);
    let x7 = enc_entries(d.ports);
    let x8 = enc_num(d.metadata.len() as int, 16);
    let x9 = enc_entries(d.metadata);
    let b = enc_doc(d);
    let e0 = Seq::<u8>::empty();
    lemma_enc_num(d.props.len() as int, 16);
    lemma_enc_num(d.ports.len() as int, 16);
    lemma_enc_num(d.metadata.len() as int, 16);

    let c9 = e0;
    let c8 = x9 + c9;
    let c7 = x8 + c8;
    let c6 = x7 + c7;
    let c5 = x6 + c6;
    let c4 = x5 + c5;
    let c3 = x4 + c4;
    let c2 = x3 + c3;
    let c1 = x2 + c2;

    assert(x9 + e0 =~= x9);
    assert(b == x1 + c1);
    let a0 = e0;
    assert(a0 + x1 =~= x1);
    assert(b == a0 + x1 + c1);
    let a1 = a0 + x1;
    vstd::seq_lib::lemma_concat_associative(a1, x2, c2);
    let a2 = a1 + x2;
    vstd::seq_lib::lemma_concat_associative(a2, x3, c3);
    let a3 = a2 + x3;
    vstd::seq_lib::lemma_concat_associative(a3, x4, c4);
    let a4 = a3 + x4;
    vstd::seq_lib::lemma_concat_associative(a4, x5, c5);
    let a5 = a4 + x5;
    assert(b == a5 + c5);
    assert(a5.len() == dp5(d));

    vstd::seq_lib::lemma_concat_associative(a5, x6, c6);
    assert(b == a5 + x6 + c6);
    lemma_parse_enc_num(a5, d.ports.len() as int, c6);
    let a6 = a5 + x6;
    assert(a6.len() == dp6(d));

    vstd::seq_lib::lemma_concat_associative(a6, x7, c7);
    assert(b == a6 + x7 + c7);
    lemma_parse_enc_entries(a6, d.ports, c7);
    let a7 = a6 + x7;
    assert(a7.len() == dp7(d));

    vstd::seq_lib::lemma_concat_associative(a7, x8, c8);
    assert(b == a7 + x8 + c8);
    lemma_parse_enc_num(a7, d.metadata.len() as int, c8);
    let a8 = a7 + x8;
    assert(a8.len() == dp8(d));

    vstd::seq_lib::lemma_concat_associative(a8, x9, c9);
    assert(b == a8 + x9 + c9);
    lemma_parse_enc_entries(a8, d.metadata, c9);
    assert(a8.len() + x9.len() == b.len());
}

/// The round trip of the pure codec: a well-formed document parses back from
/// its own encoding, exactly.
/// The round trip of the pure codec: a well-formed document parses back from
/// its own encoding, exactly.
pub proof fn lemma_parse_enc_doc(d: DocView)
    requires
        doc_wf(d),
    ensures
        sp_doc(enc_doc(d)) == Some(d),
{
    lemma_doc_positions_head(d);
    lemma_doc_positions_tail(d);
    let b = enc_doc(d);
    match sp_doc(b) {
        Some(d2) => {
            assert(d2 =~= d);
        },
        None => {
            assert(false);
        },
    }
}

/// Everything the encoder emits is valid UTF-8: the fixed-width fields are
/// ASCII and the embedded strings are UTF-8 encodings.
pub proof fn lemma_enc_doc_valid_utf8(d: DocView)
    requires
        doc_wf(d),
    ensures
        valid_utf8(enc_doc(d)),
{
    let x1 = enc_str(d.plugin_uri);
    let x2 = enc_str(d.uri);
    let x3 = enc_opt(d.label);
    let x4 = enc_num(d.props.len() as int, 16);
    let x5 = enc_entries(d.props);
    let x6 = enc_num(d.ports.len() as int, 16);
    let x7 = enc_entries(d.ports);
    let x8 = enc_num(d.metadata.len() as int, 16);
    let x9 = enc_entries(d.metadata);
    lemma_enc_str_valid(d.plugin_uri);
    lemma_enc_str_valid(d.uri);
    lemma_enc_opt_valid(d.label);
    lemma_enc_num_valid(d.props.len() as int);
    lemma_enc_entries_valid(d.props);
    lemma_enc_num_valid(d.ports.len() as int);
    lemma_enc_entries_valid(d.ports);
    lemma_enc_num_valid(d.metadata.len() as int);
    lemma_enc_entries_valid(d.metadata);
    valid_utf8_concat(x8, x9);
    valid_utf8_concat(x7, x8 + x9);
    valid_utf8_concat(x6, x7 + (x8 + x9));
    valid_utf8_concat(x5, x6 + (x7 + (x8 + x9)));
    valid_utf8_concat(x4, x5 + (x6 + (x7 + (x8 + x9))));
    valid_utf8_concat(x3, x4 + (x5 + (x6 + (x7 + (x8 + x9)))));
    valid_utf8_concat(x2, x3 + (x4 + (x5 + (x6 + (x7 + (x8 + x9))))));
    valid_utf8_concat(x1, x2 + (x3 + (x4 + (x5 + (x6 + (x7 + (x8 + x9)))))));
}

proof fn lemma_enc_num_valid(x: int)
    requires
        0 <= x < pow16(16),
    ensures
        valid_utf8(enc_num(x, 16)),
{
    lemma_enc_num(x, 16);
    lemma_ascii_valid_utf8(enc_num(x, 16));
}

proof fn lemma_enc_str_valid(s: Seq<char>)
    requires
        str_fits(s),
    ensures
        valid_utf8(enc_str(s)),
{
    broadcast use encode_utf8_valid_utf8;

    lemma_enc_num_valid(encode_utf8(s).len() as int);
    valid_utf8_concat(enc_num(encode_utf8(s).len() as int, 16), encode_utf8(s));
}

proof fn lemma_enc_opt_valid(l: Option<Seq<char>>)
    requires
        l matches Some(s) ==> str_fits(s),
    ensures
        valid_utf8(enc_opt(l)),
{
    match l {
        None => {
            lemma_ascii_valid_utf8(seq![48u8]);
        },
        Some(s) => {
            lemma_ascii_valid_utf8(seq![49u8]);
            lemma_enc_str_valid(s);
            valid_utf8_concat(seq![49u8], enc_str(s));
        },
    }
}

proof fn lemma_enc_blob_valid(v: Seq<u8>)
    requires
        blob_fits(v),
    ensures
        valid_utf8(enc_blob(v)),
{
    lemma_enc_num_valid(v.len() as int);
    lemma_enc_pairs(v);
    lemma_ascii_valid_utf8(enc_pairs(v));
    valid_utf8_concat(enc_num(v.len() as int, 16), enc_pairs(v));
}

proof fn lemma_enc_entry_valid(e: RawEntryView)
    requires
        entry_fits(e),
    ensures
        valid_utf8(enc_entry(e)),
{
    lemma_enc_str_valid(e.name);
    lemma_enc_str_valid(e.ty);
    lemma_enc_blob_valid(e.val);
    valid_utf8_concat(enc_str(e.name), enc_str(e.ty));
    valid_utf8_concat(enc_str(e.name) + enc_str(e.ty), enc_blob(e.val));
}

proof fn lemma_enc_entries_valid(es: Seq<RawEntryView>)
    requires
        forall|i: int| 0 <= i < es.len() ==> entry_fits(#[trigger] es[i]),
    ensures
        valid_utf8(enc_entries(es)),
    decreases es.len(),
{
    if es.len() == 0 {
        assert(valid_utf8(Seq::<u8>::empty()));
    } else {
        lemma_enc_entry_valid(es[0]);
        lemma_enc_entries_valid(es.drop_first());
        valid_utf8_concat(enc_entry(es[0]), enc_entries(es.drop_first()));
    }
}


/// One record of a document in executable form.
pub struct RawEntry {
    pub name: String,
    pub ty: String,
    pub val: Vec<u8>,
}

impl View for RawEntry {
    type V = RawEntryView;

    open spec fn view(&self) -> RawEntryView {
        RawEntryView { name: self.name@, ty: self.ty@, val: self.val@ }
    }
}

pub open spec fn entries_view(es: Seq<RawEntry>) -> Seq<RawEntryView> {
    Seq::new(es.len(), |i: int| es[i]@)
}

/// A parsed document in executable form.
pub struct RawDoc {
    pub plugin_uri: String,
    pub uri: String,
    pub label: Option<String>,
    pub props: Vec<RawEntry>,
    pub ports: Vec<RawEntry>,
    pub metadata: Vec<RawEntry>,
}

impl View for RawDoc {
    type V = DocView;

    open spec fn view(&self) -> DocView {
        DocView {
            plugin_uri: self.plugin_uri@,
            uri: self.uri@,
            label: match self.label {
                Some(l) => Some(l@),
                None => None,
            },
            props: entries_view(self.props@),
            ports: entries_view(self.ports@),
            metadata: entries_view(self.metadata@),
        }
    }
}

/// Relies on String::from_utf8: it succeeds exactly on valid UTF-8 input and
/// returns the string those bytes encode.
#[verifier::external_body]
pub(crate) fn from_utf8_opt(v: Vec<u8>) -> (r: Option<String>)
    ensures
        match r {
            Some(s) => valid_utf8(v@) && s@ == decode_utf8(v@),
            None => !valid_utf8(v@),
        },
{
    String::from_utf8(v).ok()
}

fn push_bytes(out: &mut Vec<u8>, bs: &[u8])
    ensures
        final(out)@ == old(out)@ + bs@,
{
    let ghost pre = out@;
    let n = bs.len();
    let mut i: usize = 0;
    while i < n
        invariant
            n == bs@.len(),
            i <= n,
            out@ == pre + bs@.subrange(0, i as int),
        decreases n - i,
    {
        out.push(bs[i]);
        proof {
            assert(bs@.subrange(0, i + 1) =~= bs@.subrange(0, i as int).push(bs@[i as int]));
            assert(out@ =~= pre + bs@.subrange(0, i + 1));
        }
        i += 1;
    }
    proof {
        assert(bs@.subrange(0, n as int) =~= bs@);
    }
}

fn push_str_x(out: &mut Vec<u8>, s: &str)
    ensures
        final(out)@ == old(out)@ + enc_str(s@),
{
    let ghost pre = out@;
    let bs = s.as_bytes();
    let n: u64 = bs.len() as u64;
    push_num_digits(out, n, 16);
    push_bytes(out, bs);
    proof {
        assert(out@ =~= pre + enc_str(s@));
    }
}

fn push_blob_x(out: &mut Vec<u8>, v: &Vec<u8>)
    ensures
        final(out)@ == old(out)@ + enc_blob(v@),
{
    let ghost pre = out@;
    let n: u64 = v.len() as u64;
    push_num_digits(out, n, 16);
    push_pairs(out, v);
    proof {
        assert(out@ =~= pre + enc_blob(v@));
    }
}

fn push_opt_x(out: &mut Vec<u8>, l: &Option<String>)
    ensures
        final(out)@ == old(out)@ + enc_opt(match l {
            Some(s) => Some(s@),
            None => None,
        }),
{
    let ghost pre = out@;
    match l {
        None => {
            out.push(48u8);
            proof {
                assert(out@ =~= pre + enc_opt(None));
            }
        },
        Some(s) => {
            out.push(49u8);
            push_str_x(out, s.as_str());
            proof {
                assert(out@ =~= pre + enc_opt(Some(s@)));
            }
        },
    }
}

fn push_entry_x(out: &mut Vec<u8>, e: &RawEntry)
    ensures
        final(out)@ == old(out)@ + enc_entry(e@),
{
    let ghost pre = out@;
    push_str_x(out, e.name.as_str());
    push_str_x(out, e.ty.as_str());
    push_blob_x(out, &e.val);
    proof {
        assert(out@ =~= pre + enc_entry(e@));
    }
}

fn push_entries_x(out: &mut Vec<u8>, es: &Vec<RawEntry>)
    ensures
        final(out)@ == old(out)@ + enc_entries(entries_view(es@)),
{
    let ghost pre = out@;
    let ghost evs = entries_view(es@);
    let n = es.len();
    let mut i: usize = 0;
    while i < n
        invariant
            n == es@.len(),
            i <= n,
            evs == entries_view(es@),
            evs.len() == n,
            out@ == pre + enc_entries(evs.take(i as int)),
        decreases n - i,
    {
        push_entry_x(out, &es[i]);
        proof {
            assert(evs.take(i + 1) =~= evs.take(i as int).push(evs[i as int]));
            lemma_enc_entries_push(evs.take(i as int), evs[i as int]);
            assert(evs[i as int] == es@[i as int]@);
            assert(out@ =~= pre + enc_entries(evs.take(i + 1)));
        }
        i += 1;
    }
    proof {
        assert(evs.take(n as int) =~= evs);
    }
}

/// An encoded document is the nine segments in order; the encoder appends
/// them left to right.
proof fn lemma_doc_grouping(d: DocView)
    ensures
        enc_doc(d) == enc_str(d.plugin_uri) + enc_str(d.uri) + enc_opt(d.label) + enc_num(
            d.props.len() as int,
            16,
        ) + enc_entries(d.props) + enc_num(d.ports.len() as int, 16) + enc_entries(d.ports)
            + enc_num(d.metadata.len() as int, 16) + enc_entries(d.metadata),
{
    let x1 = enc_str(d.plugin_uri);
    let x2 = enc_str(d.uri);
    let x3 = enc_opt(d.label);
    let x4 = enc_num(d.props.len() as int, 16);
    let x5 = enc_entries(d.props);
    let x6 = enc_num(d.ports.len() as int, 16);
    let x7 = enc_entries(d.ports);
    let x8 = enc_num(d.metadata.len() as int, 16);
    let x9 = enc_entries(d.metadata);
    let c8 = x9;
    let c7 = x8 + c8;
    let c6 = x7 + c7;
    let c5 = x6 + c6;
    let c4 = x5 + c5;
    let c3 = x4 + c4;
    let c2 = x3 + c3;
    let c1 = x2 + c2;
    assert(enc_doc(d) == x1 + c1);
    vstd::seq_lib::lemma_concat_associative(x1, x2, c2);
    vstd::seq_lib::lemma_concat_associative(x1 + x2, x3, c3);
    vstd::seq_lib::lemma_concat_associative(x1 + x2 + x3, x4, c4);
    vstd::seq_lib::lemma_concat_associative(x1 + x2 + x3 + x4, x5, c5);
    vstd::seq_lib::lemma_concat_associative(x1 + x2 + x3 + x4 + x5, x6, c6);
    vstd::seq_lib::lemma_concat_associative(x1 + x2 + x3 + x4 + x5 + x6, x7, c7);
    vstd::seq_lib::lemma_concat_associative(x1 + x2 + x3 + x4 + x5 + x6 + x7, x8, c8);
}

/// Serialize a document.
pub(crate) fn encode_doc(d: &RawDoc) -> (out: Vec<u8>)
    ensures
        out@ == enc_doc(d@),
{
    let mut out: Vec<u8> = Vec::new();
    push_str_x(&mut out, d.plugin_uri.as_str());
    push_str_x(&mut out, d.uri.as_str());
    push_opt_x(&mut out, &d.label);
    push_num_digits(&mut out, d.props.len() as u64, 16);
    push_entries_x(&mut out, &d.props);
    push_num_digits(&mut out, d.ports.len() as u64, 16);
    push_entries_x(&mut out, &d.ports);
    push_num_digits(&mut out, d.metadata.len() as u64, 16);
    push_entries_x(&mut out, &d.metadata);
    proof {
        lemma_doc_grouping(d@);
        assert(Seq::<u8>::empty() + enc_str(d.plugin_uri@) =~= enc_str(d.plugin_uri@));
        assert(out@ == enc_doc(d@));
    }
    out
}

/// Read one string at `pos`.
fn parse_str_x(b: &Vec<u8>, pos: usize) -> (r: Option<(String, usize)>)
    ensures
        match r {
            Some((s, p)) => sp_str(b@, pos as int) == Some((s@, p as int)) && p <= b@.len(),
            None => sp_str(b@, pos as int) is None,
        },
{
    let (n, p1) = match parse_num(b, pos) {
        None => {
            return None;
        },
        Some(x) => x,
    };
    let blen = b.len();
    if n > (blen - p1) as u64 {
        return None;
    }
    let n_us: usize = n as usize;
    let mut sb: Vec<u8> = Vec::new();
    let mut i: usize = 0;
    while i < n_us
        invariant
            p1 + n_us <= b@.len(),
            b@.len() <= usize::MAX,
            i <= n_us,
            sb@ == b@.subrange(p1 as int, p1 as int + i as int),
        decreases n_us - i,
    {
        sb.push(b[p1 + i]);
        proof {
            assert(b@.subrange(p1 as int, p1 as int + i + 1) =~= b@.subrange(
                p1 as int,
                p1 as int + i as int,
            ).push(b@[p1 + i]));
        }
        i += 1;
    }
    let ghost span = b@.subrange(p1 as int, p1 as int + n as int);
    proof {
        assert(sb@ == span);
    }
    match from_utf8_opt(sb) {
        None => None,
        Some(st) => Some((st, p1 + n_us)),
    }
}

/// Read one byte payload at `pos`.
fn parse_blob_x(b: &Vec<u8>, pos: usize) -> (r: Option<(Vec<u8>, usize)>)
    ensures
        match r {
            Some((v, p)) => sp_blob(b@, pos as int) == Some((v@, p as int)) && p <= b@.len(),
            None => sp_blob(b@, pos as int) is None,
        },
{
    let (n, p1) = match parse_num(b, pos) {
        None => {
            return None;
        },
        Some(x) => x,
    };
    parse_pairs(b, p1, n)
}

/// Read the optional label at `pos`.
fn parse_opt_x(b: &Vec<u8>, pos: usize) -> (r: Option<(Option<String>, usize)>)
    ensures
        match r {
            Some((l, p)) => sp_opt(b@, pos as int) == Some(
                (
                    match l {
                        Some(s) => Some(s@),
                        None => None,
                    },
                    p as int,
                ),
            ) && p <= b@.len(),
            None => sp_opt(b@, pos as int) is None,
        },
{
    if pos >= b.len() {
        return None;
    }
    let m = b[pos];
    if m == 48 {
        Some((None, pos + 1))
    } else if m == 49 {
        match parse_str_x(b, pos + 1) {
            None => None,
            Some((s, p)) => Some((Some(s), p)),
        }
    } else {
        None
    }
}

/// Read one record at `pos`.
fn parse_entry_x(b: &Vec<u8>, pos: usize) -> (r: Option<(RawEntry, usize)>)
    ensures
        match r {
            Some((e, p)) => sp_entry(b@, pos as int) == Some((e@, p as int)) && p <= b@.len(),
            None => sp_entry(b@, pos as int) is None,
        },
{
    let (name, p1) = match parse_str_x(b, pos) {
        None => {
            return None;
        },
        Some(x) => x,
    };
    let (ty, p2) = match parse_str_x(b, p1) {
        None => {
            return None;
        },
        Some(x) => x,
    };
    let (val, p3) = match parse_blob_x(b, p2) {
        None => {
            return None;
        },
        Some(x) => x,
    };
    Some((RawEntry { name, ty, val }, p3))
}

/// What a list parse yields once the records already read are put in front.
pub open spec fn with_prefix(
    acc: Seq<RawEntryView>,
    r: Option<(Seq<RawEntryView>, int)>,
) -> Option<(Seq<RawEntryView>, int)> {
    match r {
        None => None,
        Some((rest, p)) => Some((acc + rest, p)),
    }
}

/// Read `n` records at `pos`.
fn parse_entries_x(b: &Vec<u8>, pos: usize, n: u64) -> (r: Option<(Vec<RawEntry>, usize)>)
    requires
        pos <= b@.len(),
    ensures
        match r {
            Some((es, p)) => sp_entries(b@, pos as int, n as int) == Some(
                (entries_view(es@), p as int),
            ) && p <= b@.len(),
            None => sp_entries(b@, pos as int, n as int) is None,
        },
{
    let mut acc: Vec<RawEntry> = Vec::new();
    let mut cur: usize = pos;
    let mut k: u64 = 0;
    proof {
        assert(entries_view(acc@) =~= Seq::<RawEntryView>::empty());
        assert(with_prefix(entries_view(acc@), sp_entries(b@, pos as int, n as int))
            == sp_entries(b@, pos as int, n as int));
    }
    while k < n
        invariant
            k <= n,
            cur <= b@.len(),
            sp_entries(b@, pos as int, n as int) == with_prefix(
                entries_view(acc@),
                sp_entries(b@, cur as int, n as int - k as int),
            ),
        decreases n - k,
    {
        let (e, p2) = match parse_entry_x(b, cur) {
            None => {
                proof {
                    assert(sp_entries(b@, cur as int, n as int - k as int) is None);
                }
                return None;
            },
            Some(x) => x,
        };
        proof {
            let ghost old_acc = entries_view(acc@);
            let inner = sp_entries(b@, p2 as int, n as int - k as int - 1);
            assert(sp_entries(b@, cur as int, n as int - k as int) == with_prefix(
                seq![e@],
                inner,
            ));
            match inner {
                None => {},
                Some((r2, p3)) => {
                    assert(old_acc + (seq![e@] + r2) =~= (old_acc + seq![e@]) + r2);
                },
            }
        }
        let ghost old_acc_v = entries_view(acc@);
        acc.push(e);
        proof {
            assert(entries_view(acc@) =~= old_acc_v + seq![acc@[acc@.len() - 1]@]);
        }
        cur = p2;
        k = k + 1;
    }
    proof {
        assert(sp_entries(b@, cur as int, 0) == Some((Seq::<RawEntryView>::empty(), cur as int)));
        assert(entries_view(acc@) + Seq::<RawEntryView>::empty() =~= entries_view(acc@));
    }
    Some((acc, cur))
}

/// Parse a whole document. Any malformed input yields `None`: no partial
/// document is ever produced.
pub(crate) fn parse_doc(b: &Vec<u8>) -> (r: Option<RawDoc>)
    ensures
        match r {
            Some(d) => sp_doc(b@) == Some(d@),
            None => sp_doc(b@) is None,
        },
{
    let (plugin_uri, p1) = match parse_str_x(b, 0) {
        None => {
            return None;
        },
        Some(x) => x,
    };
    if plugin_uri.as_str().is_empty() {
        return None;
    }
    let (uri, p2) = match parse_str_x(b, p1) {
        None => {
            return None;
        },
        Some(x) => x,
    };
    let (label, p3) = match parse_opt_x(b, p2) {
        None => {
            return None;
        },
        Some(x) => x,
    };
    let (n1, p4) = match parse_num(b, p3) {
        None => {
            return None;
        },
        Some(x) => x,
    };
    let (props, p5) = match parse_entries_x(b, p4, n1) {
        None => {
            return None;
        },
        Some(x) => x,
    };
    let (n2, p6) = match parse_num(b, p5) {
        None => {
            return None;
        },
        Some(x) => x,
    };
    let (ports, p7) = match parse_entries_x(b, p6, n2) {
        None => {
            return None;
        },
        Some(x) => x,
    };
    let (n3, p8) = match parse_num(b, p7) {
        None => {
            return None;
        },
        Some(x) => x,
    };
    let (metadata, p9) = match parse_entries_x(b, p8, n3) {
        None => {
            return None;
        },
        Some(x) => x,
    };
    if p9 != b.len() {
        return None;
    }
    Some(RawDoc { plugin_uri, uri, label, props, ports, metadata })
}

} // verus!
