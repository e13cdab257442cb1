//! The renderer: serializes the trust graph as a DOT text document. In
//! structured mode a vertex label is a self-describing JSON record of the
//! identity (with its gossip layer when gossip is active) and an edge label
//! is a JSON record of the certification; in simple mode labels are the bare
//! identity text and the certification kind's name. A vertex is marked
//! `color = red` when its identity is revoked and `root = true` when it sits
//! at gossip layer 0; an edge is marked `color = red` exactly when its
//! certification kind is revocation.
use vstd::prelude::*;

use crate::layers::LayerMap;
use crate::model::{GraphEdgeSig, GraphNodeUid, KeySet, OpenPgpKey, OpenPgpSigTrust, OpenPgpUid,
    SigType};
use crate::graph::{graph_edge_count, graph_edge_get, graph_node_count, graph_node_get,
    graph_edges, graph_nodes, TrustGraph};

verus! {

/// The hexadecimal digit for a value below 16, lower case.
pub open spec fn hex_digit(n: int) -> char {
    if n == 0 {
        '0'
    } else if n == 1 {
        '1'
    } else if n == 2 {
        '2'
    } else if n == 3 {
        '3'
    } else if n == 4 {
        '4'
    } else if n == 5 {
        '5'
    } else if n == 6 {
        '6'
    } else if n == 7 {
        '7'
    } else if n == 8 {
        '8'
    } else if n == 9 {
        '9'
    } else if n == 10 {
        'a'
    } else if n == 11 {
        'b'
    } else if n == 12 {
        'c'
    } else if n == 13 {
        'd'
    } else if n == 14 {
        'e'
    } else {
        'f'
    }
}

/// How one character is written inside a JSON string: quote and backslash
/// get a backslash, the named control characters their short escapes, other
/// control characters a six-character unicode escape, everything else
/// stands as itself.
pub open spec fn json_escape_char(c: char) -> Seq<char> {
    if c == '"' {
        seq!['\\', '"']
    } else if c == '\\' {
        seq!['\\', '\\']
    } else if (c as int) == 8 {
        seq!['\\', 'b']
    } else if c == '\t' {
        seq!['\\', 't']
    } else if c == '\n' {
        seq!['\\', 'n']
    } else if (c as int) == 12 {
        seq!['\\', 'f']
    } else if c == '\r' {
        seq!['\\', 'r']
    } else if (c as int) < 32 {
        seq!['\\', 'u', '0', '0', hex_digit(c as int / 16), hex_digit(c as int % 16)]
    } else {
        seq![c]
    }
}

/// A string's characters written inside a JSON string.
pub open spec fn json_escaped(s: Seq<char>) -> Seq<char>
    decreases s.len(),
{
    if s.len() == 0 {
        Seq::<char>::empty()
    } else {
        json_escaped(s.drop_last()) + json_escape_char(s.last())
    }
}

/// A string as a JSON string: quoted and escaped.
pub open spec fn json_str(s: Seq<char>) -> Seq<char> {
    seq!['"'] + json_escaped(s) + seq!['"']
}

/// The decimal digit for a value below 10.
pub open spec fn dec_digit(n: int) -> char {
    if n == 0 {
        '0'
    } else if n == 1 {
        '1'
    } else if n == 2 {
        '2'
    } else if n == 3 {
        '3'
    } else if n == 4 {
        '4'
    } else if n == 5 {
        '5'
    } else if n == 6 {
        '6'
    } else if n == 7 {
        '7'
    } else if n == 8 {
        '8'
    } else {
        '9'
    }
}

/// A number in decimal, most significant digit first.
pub open spec fn dec_u64(n: nat) -> Seq<char>
    decreases n,
{
    if n < 10 {
        seq![dec_digit(n as int)]
    } else {
        dec_u64(n / 10) + seq![dec_digit((n % 10) as int)]
    }
}

/// Relies on serde_json's string serialization: the result is the input
/// quoted, with quote and backslash escaped by a backslash, the named
/// control characters as their short escapes, and the remaining control
/// characters as six-character unicode escapes with lower-case hex digits.
#[verifier::external_body]
fn json_string(s: &String) -> (r: String)
    ensures
        r@ == json_str(s@),
{
    serde_json::to_string(s).unwrap()
}

/// Relies on serde_json's integer serialization: the result is the number
/// in decimal, most significant digit first.
#[verifier::external_body]
fn json_u64(n: u64) -> (r: String)
    ensures
        r@ == dec_u64(n as nat),
{
    serde_json::to_string(&n).unwrap()
}

/// A boolean as JSON text.
pub open spec fn json_bool(b: bool) -> Seq<char> {
    if b {
        "true"@
    } else {
        "false"@
    }
}

/// A trust bucket as a JSON value.
pub open spec fn spec_trust_json(t: OpenPgpSigTrust) -> Seq<char> {
    match t {
        OpenPgpSigTrust::NoTrust => "\"None\""@,
        OpenPgpSigTrust::Partial => "\"Partial\""@,
        OpenPgpSigTrust::Complete => "\"Complete\""@,
    }
}

/// A certification kind's bare name; an unknown kind keeps its byte.
pub open spec fn spec_sig_type_text(k: SigType) -> Seq<char> {
    match k {
        SigType::Generic => "Generic"@,
        SigType::Persona => "Persona"@,
        SigType::Casual => "Casual"@,
        SigType::Positive => "Positive"@,
        SigType::Revocation => "Revocation"@,
        SigType::Unknown(raw) => "Unknown("@ + dec_u64(raw as nat) + ")"@,
    }
}

/// A certification kind as a JSON value.
pub open spec fn spec_sig_type_json(k: SigType) -> Seq<char> {
    match k {
        SigType::Unknown(raw) => "{\"Unknown\":"@ + dec_u64(raw as nat) + "}"@,
        _ => "\""@ + spec_sig_type_text(k) + "\""@,
    }
}

fn trust_json(t: OpenPgpSigTrust) -> (r: String)
    ensures
        r@ == spec_trust_json(t),
{
    match t {
        OpenPgpSigTrust::NoTrust => String::from_str("\"None\""),
        OpenPgpSigTrust::Partial => String::from_str("\"Partial\""),
        OpenPgpSigTrust::Complete => String::from_str("\"Complete\""),
    }
}

fn sig_type_text(k: SigType) -> (r: String)
    ensures
        r@ == spec_sig_type_text(k),
{
    match k {
        SigType::Generic => String::from_str("Generic"),
        SigType::Persona => String::from_str("Persona"),
        SigType::Casual => String::from_str("Casual"),
        SigType::Positive => String::from_str("Positive"),
        SigType::Revocation => String::from_str("Revocation"),
        SigType::Unknown(raw) => {
            let mut r = String::from_str("Unknown(");
            r.append(json_u64(raw as u64).as_str());
            r.append(")");
            r
        },
    }
}

fn sig_type_json(k: SigType) -> (r: String)
    ensures
        r@ == spec_sig_type_json(k),
{
    match k {
        SigType::Unknown(raw) => {
            let mut r = String::from_str("{\"Unknown\":");
            r.append(json_u64(raw as u64).as_str());
            r.append("}");
            r
        },
        _ => {
            let mut r = String::from_str("\"");
            r.append(sig_type_text(k).as_str());
            r.append("\"");
            proof {
                assert(r@ =~= "\""@ + spec_sig_type_text(k) + "\""@);
            }
            r
        },
    }
}

/// An identity as a self-describing JSON record. The certifications are not
/// part of the record.
pub open spec fn spec_uid_json(u: OpenPgpUid) -> Seq<char> {
    "{\"fingerprint\":"@ + json_str(u.fingerprint@) + ",\"uid\":"@ + json_str(u.uid@)
        + ",\"name\":"@ + json_str(u.name@) + ",\"email\":"@ + json_str(u.email@)
        + ",\"comment\":"@ + json_str(u.comment@) + ",\"is_revoked\":"@ + json_bool(u.is_revoked)
        + ",\"is_primary\":"@ + json_bool(u.is_primary) + "}"@
}

/// An identity with its gossip layer as a JSON record; a key the walk never
/// reached reads layer -1.
pub open spec fn spec_uid_layer_json(u: OpenPgpUid, layer: Option<u16>) -> Seq<char> {
    "{\"fingerprint\":"@ + json_str(u.fingerprint@) + ",\"uid\":"@ + json_str(u.uid@)
        + ",\"name\":"@ + json_str(u.name@) + ",\"email\":"@ + json_str(u.email@)
        + ",\"comment\":"@ + json_str(u.comment@) + ",\"is_revoked\":"@ + json_bool(u.is_revoked)
        + ",\"is_primary\":"@ + json_bool(u.is_primary) + ",\"layer\":"@ + (match layer {
        Some(l) => dec_u64(l as nat),
        None => "-1"@,
    }) + "}"@
}

/// A vertex key as a JSON record, for a vertex whose identity cannot be
/// resolved in the model.
pub open spec fn spec_node_uid_json(v: GraphNodeUid) -> Seq<char> {
    "{\"fingerprint\":"@ + json_str(v.fingerprint@) + ",\"uid\":"@ + json_str(v.uid@) + "}"@
}

/// An edge payload as a JSON record.
pub open spec fn spec_edge_sig_json(w: GraphEdgeSig) -> Seq<char> {
    "{\"trust_level\":"@ + dec_u64(w.trust_level as nat) + ",\"trust_value\":"@ + spec_trust_json(
        w.trust_value,
    ) + ",\"sig_type\":"@ + spec_sig_type_json(w.sig_type) + ",\"creation_time\":"@ + dec_u64(
        w.creation_time as nat,
    ) + "}"@
}

fn bool_json(b: bool) -> (r: String)
    ensures
        r@ == json_bool(b),
{
    if b {
        String::from_str("true")
    } else {
        String::from_str("false")
    }
}

fn uid_json(u: &OpenPgpUid) -> (r: String)
    ensures
        r@ == spec_uid_json(*u),
{
    let mut r = String::from_str("{\"fingerprint\":");
    r.append(json_string(&u.fingerprint).as_str());
    r.append(",\"uid\":");
    r.append(json_string(&u.uid).as_str());
    r.append(",\"name\":");
    r.append(json_string(&u.name).as_str());
    r.append(",\"email\":");
    r.append(json_string(&u.email).as_str());
    r.append(",\"comment\":");
    r.append(json_string(&u.comment).as_str());
    r.append(",\"is_revoked\":");
    r.append(bool_json(u.is_revoked).as_str());
    r.append(",\"is_primary\":");
    r.append(bool_json(u.is_primary).as_str());
    r.append("}");
    proof {
        assert(r@ =~= spec_uid_json(*u));
    }
    r
}

fn uid_layer_json(u: &OpenPgpUid, layer: Option<u16>) -> (r: String)
    ensures
        r@ == spec_uid_layer_json(*u, layer),
{
    let mut r = String::from_str("{\"fingerprint\":");
    r.append(json_string(&u.fingerprint).as_str());
    r.append(",\"uid\":");
    r.append(json_string(&u.uid).as_str());
    r.append(",\"name\":");
    r.append(json_string(&u.name).as_str());
    r.append(",\"email\":");
    r.append(json_string(&u.email).as_str());
    r.append(",\"comment\":");
    r.append(json_string(&u.comment).as_str());
    r.append(",\"is_revoked\":");
    r.append(bool_json(u.is_revoked).as_str());
    r.append(",\"is_primary\":");
    r.append(bool_json(u.is_primary).as_str());
    r.append(",\"layer\":");
    match layer {
        Some(l) => {
            r.append(json_u64(l as u64).as_str());
        },
        None => {
            r.append("-1");
        },
    }
    r.append("}");
    proof {
        assert(r@ =~= spec_uid_layer_json(*u, layer));
    }
    r
}

fn node_uid_json(v: &GraphNodeUid) -> (r: String)
    ensures
        r@ == spec_node_uid_json(*v),
{
    let mut r = String::from_str("{\"fingerprint\":");
    r.append(json_string(&v.fingerprint).as_str());
    r.append(",\"uid\":");
    r.append(json_string(&v.uid).as_str());
    r.append("}");
    proof {
        assert(r@ =~= spec_node_uid_json(*v));
    }
    r
}

fn edge_sig_json(w: &GraphEdgeSig) -> (r: String)
    ensures
        r@ == spec_edge_sig_json(*w),
{
    let mut r = String::from_str("{\"trust_level\":");
    r.append(json_u64(w.trust_level as u64).as_str());
    r.append(",\"trust_value\":");
    r.append(trust_json(w.trust_value).as_str());
    r.append(",\"sig_type\":");
    r.append(sig_type_json(w.sig_type).as_str());
    r.append(",\"creation_time\":");
    r.append(json_u64(w.creation_time).as_str());
    r.append("}");
    proof {
        assert(r@ =~= spec_edge_sig_json(*w));
    }
    r
}

/// Picks the structured or the plain form of a label: the structured form,
/// unless simple output was asked for.
pub fn simple_output(simple: bool, structured: &String, plain: &String) -> (r: String)
    ensures
        r@ == if simple {
            plain@
        } else {
            structured@
        },
{
    if simple {
        plain.clone()
    } else {
        structured.clone()
    }
}

/// The first key in `keys` whose id is `fp`, by position.
pub open spec fn spec_find_key(keys: Seq<OpenPgpKey>, fp: Seq<char>) -> Option<OpenPgpKey>
    decreases keys.len(),
{
    if keys.len() == 0 {
        None
    } else if keys[0].id@ == fp {
        Some(keys[0])
    } else {
        spec_find_key(keys.drop_first(), fp)
    }
}

/// The first identity in `uids` whose text is `uid`, by position.
pub open spec fn spec_find_uid(uids: Seq<OpenPgpUid>, uid: Seq<char>) -> Option<OpenPgpUid>
    decreases uids.len(),
{
    if uids.len() == 0 {
        None
    } else if uids[0].uid@ == uid {
        Some(uids[0])
    } else {
        spec_find_uid(uids.drop_first(), uid)
    }
}

/// The identity a vertex key resolves to: the first key with its id, then
/// that key's first identity with its text.
pub open spec fn spec_resolve(
    keys: Seq<OpenPgpKey>,
    fp: Seq<char>,
    uid: Seq<char>,
) -> Option<OpenPgpUid> {
    match spec_find_key(keys, fp) {
        Some(k) => spec_find_uid(k.user_ids@, uid),
        None => None,
    }
}

/// The first layer entry for `fp`, by position.
pub open spec fn spec_find_layer(entries: Seq<(String, u16)>, fp: Seq<char>) -> Option<u16>
    decreases entries.len(),
{
    if entries.len() == 0 {
        None
    } else if entries[0].0@ == fp {
        Some(entries[0].1)
    } else {
        spec_find_layer(entries.drop_first(), fp)
    }
}

fn find_key_first<'a>(keys: &'a Vec<OpenPgpKey>, fp: &String) -> (r: Option<&'a OpenPgpKey>)
    ensures
        match r {
            Some(k) => spec_find_key(keys@, fp@) == Some(*k),
            None => spec_find_key(keys@, fp@) is None,
        },
{
    proof {
        assert(keys@.skip(0) =~= keys@);
    }
    let mut i: usize = 0;
    while i < keys.len()
        invariant
            0 <= i <= keys@.len(),
            spec_find_key(keys@.skip(i as int), fp@) == spec_find_key(keys@, fp@),
        decreases keys@.len() - i,
    {
        proof {
            assert(keys@.skip(i as int)[0] == keys@[i as int]);
            assert(keys@.skip(i as int).drop_first() =~= keys@.skip(i as int + 1));
        }
        if keys[i].id.eq(fp) {
            return Some(&keys[i]);
        }
        i = i + 1;
    }
    proof {
        assert(keys@.skip(keys@.len() as int).len() == 0);
    }
    None
}

fn find_uid_first<'a>(uids: &'a Vec<OpenPgpUid>, uid: &String) -> (r: Option<&'a OpenPgpUid>)
    ensures
        match r {
            Some(u) => spec_find_uid(uids@, uid@) == Some(*u),
            None => spec_find_uid(uids@, uid@) is None,
        },
{
    proof {
        assert(uids@.skip(0) =~= uids@);
    }
    let mut i: usize = 0;
    while i < uids.len()
        invariant
            0 <= i <= uids@.len(),
            spec_find_uid(uids@.skip(i as int), uid@) == spec_find_uid(uids@, uid@),
        decreases uids@.len() - i,
    {
        proof {
            assert(uids@.skip(i as int)[0] == uids@[i as int]);
            assert(uids@.skip(i as int).drop_first() =~= uids@.skip(i as int + 1));
        }
        if uids[i].uid.eq(uid) {
            return Some(&uids[i]);
        }
        i = i + 1;
    }
    proof {
        assert(uids@.skip(uids@.len() as int).len() == 0);
    }
    None
}

fn find_layer_first(entries: &Vec<(String, u16)>, fp: &String) -> (r: Option<u16>)
    ensures
        r == spec_find_layer(entries@, fp@),
{
    proof {
        assert(entries@.skip(0) =~= entries@);
    }
    let mut i: usize = 0;
    while i < entries.len()
        invariant
            0 <= i <= entries@.len(),
            spec_find_layer(entries@.skip(i as int), fp@) == spec_find_layer(entries@, fp@),
        decreases entries@.len() - i,
    {
        proof {
            assert(entries@.skip(i as int)[0] == entries@[i as int]);
            assert(entries@.skip(i as int).drop_first() =~= entries@.skip(i as int + 1));
        }
        if entries[i].0.eq(fp) {
            return Some(entries[i].1);
        }
        i = i + 1;
    }
    proof {
        assert(entries@.skip(entries@.len() as int).len() == 0);
    }
    None
}

/// The structured label of a resolved identity: its JSON record, with its
/// gossip layer when gossip is active.
pub open spec fn spec_complex_output(
    u: OpenPgpUid,
    gossip: bool,
    simple: bool,
    layer: Option<u16>,
    or: Seq<char>,
) -> Seq<char> {
    if simple {
        or
    } else if gossip {
        spec_uid_layer_json(u, layer)
    } else {
        spec_uid_json(u)
    }
}

/// The label of a resolved identity: its JSON record, carrying the gossip
/// layer when gossip is active, or the fallback text in simple mode.
pub fn complex_output(
    object: &OpenPgpUid,
    gossip: bool,
    simple: bool,
    layers: &LayerMap,
    or: &String,
) -> (r: String)
    ensures
        r@ == spec_complex_output(
            *object,
            gossip,
            simple,
            spec_find_layer(layers.entries@, object.fingerprint@),
            or@,
        ),
{
    if simple {
        or.clone()
    } else if gossip {
        let layer = find_layer_first(&layers.entries, &object.fingerprint);
        uid_layer_json(object, layer)
    } else {
        uid_json(object)
    }
}

/// The label a vertex gets.
pub open spec fn spec_node_label(
    keys: Seq<OpenPgpKey>,
    entries: Seq<(String, u16)>,
    v: GraphNodeUid,
    gossip: bool,
    simple: bool,
) -> Seq<char> {
    match spec_resolve(keys, v.fingerprint@, v.uid@) {
        Some(u) => spec_complex_output(
            u,
            gossip,
            simple,
            spec_find_layer(entries, u.fingerprint@),
            u.uid@,
        ),
        None => if simple {
            v.fingerprint@
        } else {
            spec_node_uid_json(v)
        },
    }
}

/// The style attributes a vertex gets: `color = red` when its identity is
/// revoked, `root = true` when gossip is active and it sits at layer 0.
pub open spec fn spec_node_attr(
    keys: Seq<OpenPgpKey>,
    entries: Seq<(String, u16)>,
    v: GraphNodeUid,
    gossip: bool,
) -> Seq<char> {
    (match spec_resolve(keys, v.fingerprint@, v.uid@) {
        Some(u) => if u.is_revoked {
            " color = red "@
        } else {
            Seq::<char>::empty()
        },
        None => Seq::<char>::empty(),
    }) + (if gossip && spec_find_layer(entries, v.fingerprint@) == Some(0u16) {
        " root = true "@
    } else {
        Seq::<char>::empty()
    })
}

/// The style attribute an edge gets: `color = red` exactly when the
/// certification kind is revocation.
pub open spec fn spec_edge_attr(w: GraphEdgeSig) -> Seq<char> {
    if w.sig_type == SigType::Revocation {
        " color = red "@
    } else {
        Seq::<char>::empty()
    }
}

/// The label an edge gets: the certification's JSON record, or the kind's
/// bare name in simple mode.
pub open spec fn spec_edge_label(w: GraphEdgeSig, simple: bool) -> Seq<char> {
    if simple {
        spec_sig_type_text(w.sig_type)
    } else {
        spec_edge_sig_json(w)
    }
}

fn node_label(model: &KeySet, layers: &LayerMap, v: &GraphNodeUid, gossip: bool, simple: bool) -> (
    r: String)
    ensures
        r@ == spec_node_label(model.keys@, layers.entries@, *v, gossip, simple),
{
    match find_key_first(&model.keys, &v.fingerprint) {
        Some(key) => {
            match find_uid_first(&key.user_ids, &v.uid) {
                Some(u) => complex_output(u, gossip, simple, layers, &u.uid),
                None => {
                    if simple {
                        v.fingerprint.clone()
                    } else {
                        node_uid_json(v)
                    }
                },
            }
        },
        None => {
            if simple {
                v.fingerprint.clone()
            } else {
                node_uid_json(v)
            }
        },
    }
}

fn node_attr(model: &KeySet, layers: &LayerMap, v: &GraphNodeUid, gossip: bool) -> (r: String)
    ensures
        r@ == spec_node_attr(model.keys@, layers.entries@, *v, gossip),
{
    let mut r = match find_key_first(&model.keys, &v.fingerprint) {
        Some(key) => {
            match find_uid_first(&key.user_ids, &v.uid) {
                Some(u) => {
                    if u.is_revoked {
                        String::from_str(" color = red ")
                    } else {
                        String::new()
                    }
                },
                None => String::new(),
            }
        },
        None => String::new(),
    };
    if gossip {
        match find_layer_first(&layers.entries, &v.fingerprint) {
            Some(l) => {
                if l == 0 {
                    r.append(" root = true ");
                }
            },
            None => {},
        }
    }
    proof {
        assert(r@ =~= spec_node_attr(model.keys@, layers.entries@, *v, gossip));
    }
    r
}

fn edge_attr(w: &GraphEdgeSig) -> (r: String)
    ensures
        r@ == spec_edge_attr(*w),
{
    let r = match w.sig_type {
        SigType::Revocation => String::from_str(" color = red "),
        _ => String::new(),
    };
    proof {
        assert(r@ =~= spec_edge_attr(*w));
    }
    r
}

fn edge_label(w: &GraphEdgeSig, simple: bool) -> (r: String)
    ensures
        r@ == spec_edge_label(*w, simple),
{
    if simple {
        sig_type_text(w.sig_type)
    } else {
        edge_sig_json(w)
    }
}

/// The document line of the vertex at position `v`.
pub open spec fn spec_node_line(
    keys: Seq<OpenPgpKey>,
    entries: Seq<(String, u16)>,
    v: nat,
    w: GraphNodeUid,
    gossip: bool,
    simple: bool,
) -> Seq<char> {
    "    "@ + dec_u64(v) + " [ label = "@ + json_str(spec_node_label(keys, entries, w, gossip,
    simple)) + spec_node_attr(keys, entries, w, gossip) + "]\n"@
}

/// The document line of the edge at position `e`.
pub open spec fn spec_edge_line(
    a: nat,
    b: nat,
    w: GraphEdgeSig,
    simple: bool,
) -> Seq<char> {
    "    "@ + dec_u64(a) + " -> "@ + dec_u64(b) + " [ label = "@ + json_str(spec_edge_label(w,
    simple)) + spec_edge_attr(w) + "]\n"@
}

/// The vertex section: one line per vertex, in position order.
pub open spec fn spec_node_section(
    keys: Seq<OpenPgpKey>,
    entries: Seq<(String, u16)>,
    nodes: Seq<GraphNodeUid>,
    gossip: bool,
    simple: bool,
    n: int,
) -> Seq<char>
    decreases n,
{
    if n <= 0 {
        Seq::<char>::empty()
    } else {
        spec_node_section(keys, entries, nodes, gossip, simple, n - 1) + spec_node_line(
            keys,
            entries,
            (n - 1) as nat,
            nodes[n - 1],
            gossip,
            simple,
        )
    }
}

/// The edge section: one line per edge, in position order.
pub open spec fn spec_edge_section(
    edges: Seq<(usize, usize, GraphEdgeSig)>,
    simple: bool,
    n: int,
) -> Seq<char>
    decreases n,
{
    if n <= 0 {
        Seq::<char>::empty()
    } else {
        spec_edge_section(edges, simple, n - 1) + spec_edge_line(
            edges[n - 1].0 as nat,
            edges[n - 1].1 as nat,
            edges[n - 1].2,
            simple,
        )
    }
}

/// The whole DOT document of a graph.
pub open spec fn spec_render(
    keys: Seq<OpenPgpKey>,
    entries: Seq<(String, u16)>,
    nodes: Seq<GraphNodeUid>,
    edges: Seq<(usize, usize, GraphEdgeSig)>,
    gossip: bool,
    simple: bool,
) -> Seq<char> {
    "digraph {\n"@ + spec_node_section(keys, entries, nodes, gossip, simple, nodes.len() as int)
        + spec_edge_section(edges, simple, edges.len() as int) + "}\n"@
}

fn node_line(
    model: &KeySet,
    layers: &LayerMap,
    v_ix: u64,
    w: &GraphNodeUid,
    gossip: bool,
    simple: bool,
) -> (r: String)
    ensures
        r@ == spec_node_line(model.keys@, layers.entries@, v_ix as nat, *w, gossip, simple),
{
    let label = node_label(model, layers, w, gossip, simple);
    let attr = node_attr(model, layers, w, gossip);
    let mut r = String::from_str("    ");
    r.append(json_u64(v_ix).as_str());
    r.append(" [ label = ");
    r.append(json_string(&label).as_str());
    r.append(attr.as_str());
    r.append("]\n");
    proof {
        assert(r@ =~= spec_node_line(model.keys@, layers.entries@, v_ix as nat, *w, gossip,
        simple));
    }
    r
}

fn edge_line(a: u64, b: u64, w: &GraphEdgeSig, simple: bool) -> (r: String)
    ensures
        r@ == spec_edge_line(a as nat, b as nat, *w, simple),
{
    let label = edge_label(w, simple);
    let attr = edge_attr(w);
    let mut r = String::from_str("    ");
    r.append(json_u64(a).as_str());
    r.append(" -> ");
    r.append(json_u64(b).as_str());
    r.append(" [ label = ");
    r.append(json_string(&label).as_str());
    r.append(attr.as_str());
    r.append("]\n");
    proof {
        assert(r@ =~= spec_edge_line(a as nat, b as nat, *w, simple));
    }
    r
}

/// Serializes the graph as a DOT document: a line per vertex with its label
/// and style, then a line per edge with its label and style.
#[verifier::rlimit(100)]
pub fn render_dot(
    model: &KeySet,
    g: &TrustGraph,
    layers: &LayerMap,
    gossip: bool,
    simple: bool,
) -> (r: String)
    ensures
        r@ == spec_render(
            model.keys@,
            layers.entries@,
            graph_nodes(*g),
            graph_edges(*g),
            gossip,
            simple,
        ),
{
    let mut out = String::from_str("digraph {\n");
    let n = graph_node_count(g);
    let mut v: usize = 0;
    while v < n
        invariant
            0 <= v <= n,
            n == graph_nodes(*g).len(),
            out@ == "digraph {\n"@ + spec_node_section(
                model.keys@,
                layers.entries@,
                graph_nodes(*g),
                gossip,
                simple,
                v as int,
            ),
        decreases n - v,
    {
        let w = graph_node_get(g, v);
        out.append(node_line(model, layers, v as u64, w, gossip, simple).as_str());
        proof {
            assert(out@ =~= "digraph {\n"@ + spec_node_section(
                model.keys@,
                layers.entries@,
                graph_nodes(*g),
                gossip,
                simple,
                v as int + 1,
            ));
        }
        v = v + 1;
    }
    let m = graph_edge_count(g);
    let mut e: usize = 0;
    while e < m
        invariant
            0 <= e <= m,
            m == graph_edges(*g).len(),
            out@ == "digraph {\n"@ + spec_node_section(
                model.keys@,
                layers.entries@,
                graph_nodes(*g),
                gossip,
                simple,
                graph_nodes(*g).len() as int,
            ) + spec_edge_section(graph_edges(*g), simple, e as int),
        decreases m - e,
    {
        let (a, b, w) = graph_edge_get(g, e);
        out.append(edge_line(a as u64, b as u64, &w, simple).as_str());
        proof {
            assert(out@ =~= "digraph {\n"@ + spec_node_section(
                model.keys@,
                layers.entries@,
                graph_nodes(*g),
                gossip,
                simple,
                graph_nodes(*g).len() as int,
            ) + spec_edge_section(graph_edges(*g), simple, e as int + 1));
        }
        e = e + 1;
    }
    out.append("}\n");
    proof {
        assert(out@ =~= spec_render(
            model.keys@,
            layers.entries@,
            graph_nodes(*g),
            graph_edges(*g),
            gossip,
            simple,
        ));
    }
    out
}

/// Revocation styling: an edge carries the red style marker exactly when
/// its certification kind is revocation.
pub proof fn lemma_revocation_styling(w: GraphEdgeSig)
    ensures
        w.sig_type == SigType::Revocation ==> spec_edge_attr(w) == " color = red "@,
        w.sig_type != SigType::Revocation ==> spec_edge_attr(w) == Seq::<char>::empty(),
{
}

} // verus!
