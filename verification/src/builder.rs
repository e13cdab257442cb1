//! The model builder: converts validated certificates, already reduced to
//! plain values by the boundary, into the identity model. Certificates that
//! failed the as-of policy check are dropped, certifications without a
//! derivable creation time are dropped, malformed or absent components
//! default to the empty string, and a later certificate for the same key id
//! overwrites an earlier one.
use vstd::prelude::*;

use crate::model::{has_key, has_uid, KeySet, OpenPgpKey, OpenPgpSig, OpenPgpSigTrust, OpenPgpUid,
    SigType};

verus! {

/// One certification as the certificate authority service reports it: the
/// issuer fields are absent when the signature does not declare them, the
/// trust pair and kind are raw bytes, and the creation time is absent when
/// it cannot be determined.
#[derive(Debug)]
pub struct RawSig {
    /// The issuer's key id, if the signature declares one.
    pub issuer_fingerprint: Option<String>,
    /// The issuer's identity text, if the signature declares one.
    pub issuer_uid: Option<String>,
    /// The trust depth of a trust signature; 0 when not a trust signature.
    pub trust_level: u8,
    /// The raw 0-255 trust amount of a trust signature; 0 when not one.
    pub trust_amount: u8,
    /// The raw signature type byte.
    pub sig_type: u8,
    /// Seconds since the epoch of the signature's creation, if derivable.
    pub creation_time: Option<u64>,
}

/// One identity as the certificate authority service reports it. A component
/// is absent when it is missing or malformed; it defaults to empty.
#[derive(Debug)]
pub struct RawUid {
    /// The full identity text.
    pub uid: String,
    /// The name component, if present and well formed.
    pub name: Option<String>,
    /// The email component, if present and well formed.
    pub email: Option<String>,
    /// The comment component, if present and well formed.
    pub comment: Option<String>,
    /// Whether the identity is revoked.
    pub is_revoked: bool,
    /// The certifications on this identity, in signature order.
    pub sigs: Vec<RawSig>,
}

/// One validated certificate as the certificate authority service reports
/// it, reduced to plain values.
#[derive(Debug)]
pub struct RawCert {
    /// The certificate's unique key id.
    pub fingerprint: String,
    /// Whether the certificate passed the policy check at the reference
    /// time. Certificates that failed are dropped from the model.
    pub policy_ok: bool,
    /// Whether the key is revoked.
    pub is_revoked: bool,
    /// Seconds since the epoch at which the key expires, if it does.
    pub expiration_time: Option<u64>,
    /// The declared primary identity text, if any was declared.
    pub primary_user_id: Option<String>,
    /// The identities on the certificate.
    pub user_ids: Vec<RawUid>,
}

/// The text an optional component defaults to: its own, or empty.
pub open spec fn opt_text(o: Option<String>) -> Seq<char> {
    match o {
        Some(s) => s@,
        None => Seq::<char>::empty(),
    }
}

/// How a built certification relates to the raw one it came from.
pub open spec fn sig_matches(raw: RawSig, sig: OpenPgpSig) -> bool {
    &&& sig.fingerprint@ == opt_text(raw.issuer_fingerprint)
    &&& sig.uid@ == opt_text(raw.issuer_uid)
    &&& sig.trust_level == raw.trust_level
    &&& sig.trust_value == OpenPgpSigTrust::spec_from_raw(raw.trust_amount)
    &&& sig.sig_type == SigType::spec_from_raw(raw.sig_type)
    &&& raw.creation_time == Some(sig.creation_time)
}

/// The raw certifications that are kept: those with a derivable creation
/// time, in their original order.
pub open spec fn kept_sigs(raws: Seq<RawSig>) -> Seq<RawSig>
    decreases raws.len(),
{
    if raws.len() == 0 {
        Seq::<RawSig>::empty()
    } else {
        let rest = kept_sigs(raws.drop_last());
        if raws.last().creation_time is Some {
            rest.push(raws.last())
        } else {
            rest
        }
    }
}

/// How a built identity relates to the raw one it came from, on the key
/// `key_id` whose declared primary identity text is `primary`.
pub open spec fn uid_matches(
    raw: RawUid,
    key_id: Seq<char>,
    primary: Seq<char>,
    uid: OpenPgpUid,
) -> bool {
    &&& uid.fingerprint@ == key_id
    &&& uid.uid@ == raw.uid@
    &&& uid.name@ == opt_text(raw.name)
    &&& uid.email@ == opt_text(raw.email)
    &&& uid.comment@ == opt_text(raw.comment)
    &&& uid.is_revoked == raw.is_revoked
    &&& uid.is_primary == (raw.uid@ == primary)
    &&& uid.sig_vec@.len() == kept_sigs(raw.sigs@).len()
    &&& forall|i: int|
        0 <= i < uid.sig_vec@.len() ==> sig_matches(
            kept_sigs(raw.sigs@)[i],
            #[trigger] uid.sig_vec@[i],
        )
}

/// How a set of built identities relates to the first `p` raw ones: texts
/// are pairwise distinct, every raw text among the first `p` is represented,
/// and each built identity comes from the last occurrence of its text there
/// (a later identity record for the same text overwrites an earlier one).
pub open spec fn uids_match_prefix(
    raws: Seq<RawUid>,
    key_id: Seq<char>,
    primary: Seq<char>,
    p: int,
    out: Seq<OpenPgpUid>,
) -> bool {
    &&& forall|i: int, j: int| 0 <= i < j < out.len() ==> out[i].uid@ != out[j].uid@
    &&& forall|k: int| 0 <= k < p ==> has_uid(out, (#[trigger] raws[k]).uid@)
    &&& forall|i: int|
        #![trigger out[i]]
        0 <= i < out.len() ==> exists|k: int|
            {
                &&& 0 <= k < p
                &&& (#[trigger] raws[k]).uid@ == out[i].uid@
                &&& uid_matches(raws[k], key_id, primary, out[i])
                &&& forall|m: int| k < m < p ==> raws[m].uid@ != out[i].uid@
            }
}

/// How a set of built identities relates to the raw ones of a certificate.
pub open spec fn uids_match(
    raws: Seq<RawUid>,
    key_id: Seq<char>,
    primary: Seq<char>,
    out: Seq<OpenPgpUid>,
) -> bool {
    uids_match_prefix(raws, key_id, primary, raws.len() as int, out)
}

/// How a built key relates to the raw certificate it came from, given the
/// reference time `as_of`.
pub open spec fn key_matches(raw: RawCert, as_of: u64, key: OpenPgpKey) -> bool {
    &&& key.id@ == raw.fingerprint@
    &&& key.is_revoked == raw.is_revoked
    &&& key.is_expired == (match raw.expiration_time {
        Some(t) => t < as_of,
        None => false,
    })
    &&& key.primary_user_id@ == opt_text(raw.primary_user_id)
    &&& uids_match(raw.user_ids@, raw.fingerprint@, opt_text(raw.primary_user_id), key.user_ids@)
}

/// Whether some string in `l` reads `text`.
pub open spec fn has_text(l: Seq<String>, text: Seq<char>) -> bool {
    exists|i: int| 0 <= i < l.len() && l[i]@ == text
}

/// Whether a certificate enters the model: it must have passed the policy
/// check, and, when the model is restricted to explicitly supplied key ids,
/// its id must be among them.
pub open spec fn accepted(cert: RawCert, restrict: Option<Vec<String>>) -> bool {
    &&& cert.policy_ok
    &&& match restrict {
        Some(l) => has_text(l@, cert.fingerprint@),
        None => true,
    }
}

/// Whether `key` was built from the last certificate among the first `p`
/// that was accepted and carries the key's id.
pub open spec fn key_from_last(
    certs: Seq<RawCert>,
    as_of: u64,
    restrict: Option<Vec<String>>,
    p: int,
    key: OpenPgpKey,
) -> bool {
    exists|k: int|
        {
            &&& 0 <= k < p
            &&& accepted(#[trigger] certs[k], restrict)
            &&& certs[k].fingerprint@ == key.id@
            &&& key_matches(certs[k], as_of, key)
            &&& forall|m: int|
                k < m < p ==> !(accepted(#[trigger] certs[m], restrict) && certs[m].fingerprint@
                    == key.id@)
        }
}

/// How a built model relates to the first `p` supplied certificates: every
/// accepted certificate's key id is present, and each key in the model was
/// built from the last accepted certificate with its id.
pub open spec fn model_match_prefix(
    certs: Seq<RawCert>,
    as_of: u64,
    restrict: Option<Vec<String>>,
    p: int,
    keys: Seq<OpenPgpKey>,
) -> bool {
    &&& forall|k: int|
        0 <= k < p && accepted(#[trigger] certs[k], restrict) ==> has_key(
            keys,
            certs[k].fingerprint@,
        )
    &&& forall|i: int|
        0 <= i < keys.len() ==> key_from_last(certs, as_of, restrict, p, #[trigger] keys[i])
}

/// How a built model relates to the supplied certificates.
pub open spec fn model_match(
    certs: Seq<RawCert>,
    as_of: u64,
    restrict: Option<Vec<String>>,
    keys: Seq<OpenPgpKey>,
) -> bool {
    model_match_prefix(certs, as_of, restrict, certs.len() as int, keys)
}

/// A key built from the last accepted certificate among the first `p` is
/// still that when one more certificate follows, provided the new one is not
/// an accepted certificate with the key's id.
proof fn lemma_key_from_last_extend(
    certs: Seq<RawCert>,
    as_of: u64,
    restrict: Option<Vec<String>>,
    p: int,
    key: OpenPgpKey,
)
    requires
        0 <= p < certs.len(),
        key_from_last(certs, as_of, restrict, p, key),
        !(accepted(certs[p], restrict) && certs[p].fingerprint@ == key.id@),
    ensures
        key_from_last(certs, as_of, restrict, p + 1, key),
{
    let k0 = choose|k: int|
        {
            &&& 0 <= k < p
            &&& accepted(#[trigger] certs[k], restrict)
            &&& certs[k].fingerprint@ == key.id@
            &&& key_matches(certs[k], as_of, key)
            &&& forall|m: int|
                k < m < p ==> !(accepted(#[trigger] certs[m], restrict) && certs[m].fingerprint@
                    == key.id@)
        };
    assert(forall|m: int|
        k0 < m < p + 1 ==> !(accepted(#[trigger] certs[m], restrict) && certs[m].fingerprint@
            == key.id@));
    assert(accepted(certs[k0], restrict) && certs[k0].fingerprint@ == key.id@);
}

/// A key built from an accepted certificate at position `p` is built from
/// the last accepted certificate among the first `p + 1` with its id.
proof fn lemma_key_from_last_new(
    certs: Seq<RawCert>,
    as_of: u64,
    restrict: Option<Vec<String>>,
    p: int,
    key: OpenPgpKey,
)
    requires
        0 <= p < certs.len(),
        accepted(certs[p], restrict),
        certs[p].fingerprint@ == key.id@,
        key_matches(certs[p], as_of, key),
    ensures
        key_from_last(certs, as_of, restrict, p + 1, key),
{
    assert(accepted(certs[p], restrict) && certs[p].fingerprint@ == key.id@ && key_matches(
        certs[p],
        as_of,
        key,
    ) && (forall|m: int|
        p < m < p + 1 ==> !(accepted(#[trigger] certs[m], restrict) && certs[m].fingerprint@
            == key.id@)));
}

/// A dropped certificate extends the certificate prefix a built model
/// matches without changing the model.
proof fn lemma_model_prefix_skip(
    certs: Seq<RawCert>,
    as_of: u64,
    restrict: Option<Vec<String>>,
    p: int,
    keys: Seq<OpenPgpKey>,
)
    requires
        0 <= p < certs.len(),
        model_match_prefix(certs, as_of, restrict, p, keys),
        !accepted(certs[p], restrict),
    ensures
        model_match_prefix(certs, as_of, restrict, p + 1, keys),
{
    assert forall|i: int| 0 <= i < keys.len() implies key_from_last(
        certs,
        as_of,
        restrict,
        p + 1,
        #[trigger] keys[i],
    ) by {
        lemma_key_from_last_extend(certs, as_of, restrict, p, keys[i]);
    }
    assert forall|k: int|
        0 <= k < p + 1 && accepted(#[trigger] certs[k], restrict) implies has_key(
        keys,
        certs[k].fingerprint@,
    ) by {
        assert(k != p);
    }
}

/// The built certification of a raw one, or nothing when the raw one has no
/// derivable creation time.
fn build_sig(raw: &RawSig) -> (r: Option<OpenPgpSig>)
    ensures
        match r {
            Some(sig) => raw.creation_time is Some && sig_matches(*raw, sig),
            None => raw.creation_time is None,
        },
{
    let creation_time: u64 = match &raw.creation_time {
        Some(t) => *t,
        None => {
            return None;
        },
    };
    Some(
        OpenPgpSig {
            fingerprint: match &raw.issuer_fingerprint {
                Some(f) => f.clone(),
                None => String::new(),
            },
            uid: match &raw.issuer_uid {
                Some(u) => u.clone(),
                None => String::new(),
            },
            trust_level: raw.trust_level,
            trust_value: OpenPgpSigTrust::from_raw(raw.trust_amount),
            sig_type: SigType::from_raw(raw.sig_type),
            creation_time,
        },
    )
}

/// The built identity of a raw one: components defaulted, certifications
/// without a creation time dropped, primacy decided against `primary`.
fn build_uid(key_id: &String, primary: &String, raw: &RawUid) -> (r: OpenPgpUid)
    ensures
        uid_matches(*raw, key_id@, primary@, r),
{
    let mut sig_vec: Vec<OpenPgpSig> = Vec::new();
    let mut i: usize = 0;
    while i < raw.sigs.len()
        invariant
            0 <= i <= raw.sigs@.len(),
            sig_vec@.len() == kept_sigs(raw.sigs@.subrange(0, i as int)).len(),
            forall|j: int|
                0 <= j < sig_vec@.len() ==> sig_matches(
                    kept_sigs(raw.sigs@.subrange(0, i as int))[j],
                    #[trigger] sig_vec@[j],
                ),
        decreases raw.sigs@.len() - i,
    {
        proof {
            assert(raw.sigs@.subrange(0, i as int + 1).drop_last() =~= raw.sigs@.subrange(
                0,
                i as int,
            ));
            assert(raw.sigs@.subrange(0, i as int + 1).last() == raw.sigs@[i as int]);
        }
        match build_sig(&raw.sigs[i]) {
            Some(sig) => {
                sig_vec.push(sig);
            },
            None => {},
        }
        i = i + 1;
    }
    proof {
        assert(raw.sigs@.subrange(0, raw.sigs@.len() as int) =~= raw.sigs@);
    }
    OpenPgpUid {
        fingerprint: key_id.clone(),
        uid: raw.uid.clone(),
        name: match &raw.name {
            Some(n) => n.clone(),
            None => String::new(),
        },
        email: match &raw.email {
            Some(e) => e.clone(),
            None => String::new(),
        },
        comment: match &raw.comment {
            Some(c) => c.clone(),
            None => String::new(),
        },
        sig_vec,
        is_revoked: raw.is_revoked,
        is_primary: raw.uid.eq(primary),
    }
}

/// The position of the identity with text `uid`, if one is present.
fn find_uid_index(out: &Vec<OpenPgpUid>, uid: &String) -> (r: Option<usize>)
    ensures
        match r {
            Some(i) => 0 <= i < out@.len() && out@[i as int].uid@ == uid@,
            None => forall|j: int| 0 <= j < out@.len() ==> out@[j].uid@ != uid@,
        },
{
    let mut i: usize = 0;
    while i < out.len()
        invariant
            0 <= i <= out@.len(),
            forall|j: int| 0 <= j < i ==> out@[j].uid@ != uid@,
        decreases out@.len() - i,
    {
        if out[i].uid.eq(uid) {
            return Some(i);
        }
        i = i + 1;
    }
    None
}

/// The position of the key with id `id`, if one is present.
fn find_key_index(keys: &Vec<OpenPgpKey>, id: &String) -> (r: Option<usize>)
    ensures
        match r {
            Some(i) => 0 <= i < keys@.len() && keys@[i as int].id@ == id@,
            None => forall|j: int| 0 <= j < keys@.len() ==> keys@[j].id@ != id@,
        },
{
    let mut i: usize = 0;
    while i < keys.len()
        invariant
            0 <= i <= keys@.len(),
            forall|j: int| 0 <= j < i ==> keys@[j].id@ != id@,
        decreases keys@.len() - i,
    {
        if keys[i].id.eq(id) {
            return Some(i);
        }
        i = i + 1;
    }
    None
}

/// The built identities of a certificate's raw ones: each text once, a later
/// record for the same text overwriting an earlier one.
#[verifier::rlimit(60)]
fn build_uids(key_id: &String, primary: &String, raws: &Vec<RawUid>) -> (r: Vec<OpenPgpUid>)
    ensures
        uids_match(raws@, key_id@, primary@, r@),
{
    let mut out: Vec<OpenPgpUid> = Vec::new();
    let mut p: usize = 0;
    while p < raws.len()
        invariant
            0 <= p <= raws@.len(),
            uids_match_prefix(raws@, key_id@, primary@, p as int, out@),
        decreases raws@.len() - p,
    {
        let built = build_uid(key_id, primary, &raws[p]);
        let ghost gb = built;
        let ghost old_out = out@;
        match find_uid_index(&out, &built.uid) {
            Some(i) => {
                out.set(i, built);
                proof {
                    assert(out@ =~= old_out.update(i as int, gb));
                    assert(out@[i as int].uid@ == old_out[i as int].uid@);
                    assert forall|k: int| 0 <= k < p + 1 implies has_uid(
                        out@,
                        (#[trigger] raws@[k]).uid@,
                    ) by {
                        if k < p {
                            let j = choose|j: int|
                                0 <= j < old_out.len() && old_out[j].uid@ == raws@[k].uid@;
                            assert(out@[j].uid@ == raws@[k].uid@);
                        } else {
                            assert(out@[i as int].uid@ == raws@[k].uid@);
                        }
                    }
                    assert forall|i2: int|
                        #![trigger out@[i2]]
                        0 <= i2 < out@.len() implies exists|k: int|
                        {
                            &&& 0 <= k < p + 1
                            &&& (#[trigger] raws@[k]).uid@ == out@[i2].uid@
                            &&& uid_matches(raws@[k], key_id@, primary@, out@[i2])
                            &&& forall|m: int| k < m < p + 1 ==> raws@[m].uid@ != out@[i2].uid@
                        } by {
                        if i2 == i {
                            assert((raws@[p as int]).uid@ == out@[i2].uid@);
                            assert(uid_matches(raws@[p as int], key_id@, primary@, out@[i2]));
                        } else {
                            assert(old_out[i2] == out@[i2]);
                            let k0 = choose|k: int|
                                {
                                    &&& 0 <= k < p
                                    &&& (#[trigger] raws@[k]).uid@ == old_out[i2].uid@
                                    &&& uid_matches(raws@[k], key_id@, primary@, old_out[i2])
                                    &&& forall|m: int|
                                        k < m < p ==> raws@[m].uid@ != old_out[i2].uid@
                                };
                            assert(raws@[p as int].uid@ == old_out[i as int].uid@);
                            assert(out@[i2].uid@ != old_out[i as int].uid@);
                            assert(forall|m: int|
                                k0 < m < p + 1 ==> raws@[m].uid@ != out@[i2].uid@);
                            assert((raws@[k0]).uid@ == out@[i2].uid@);
                        }
                    }
                    assert(forall|a: int|
                        0 <= a < out@.len() ==> (#[trigger] out@[a]).uid@ == old_out[a].uid@);
                    assert(uids_match_prefix(raws@, key_id@, primary@, p as int + 1, out@));
                }
            },
            None => {
                out.push(built);
                proof {
                    assert(out@ =~= old_out.push(gb));
                    let ghost n = old_out.len() as int;
                    assert forall|k: int| 0 <= k < p + 1 implies has_uid(
                        out@,
                        (#[trigger] raws@[k]).uid@,
                    ) by {
                        if k < p {
                            let j = choose|j: int|
                                0 <= j < old_out.len() && old_out[j].uid@ == raws@[k].uid@;
                            assert(out@[j].uid@ == raws@[k].uid@);
                        } else {
                            assert(out@[n].uid@ == raws@[k].uid@);
                        }
                    }
                    assert forall|i2: int|
                        #![trigger out@[i2]]
                        0 <= i2 < out@.len() implies exists|k: int|
                        {
                            &&& 0 <= k < p + 1
                            &&& (#[trigger] raws@[k]).uid@ == out@[i2].uid@
                            &&& uid_matches(raws@[k], key_id@, primary@, out@[i2])
                            &&& forall|m: int| k < m < p + 1 ==> raws@[m].uid@ != out@[i2].uid@
                        } by {
                        if i2 == n {
                            assert((raws@[p as int]).uid@ == out@[i2].uid@);
                            assert(uid_matches(raws@[p as int], key_id@, primary@, out@[i2]));
                        } else {
                            assert(old_out[i2] == out@[i2]);
                            let k0 = choose|k: int|
                                {
                                    &&& 0 <= k < p
                                    &&& (#[trigger] raws@[k]).uid@ == old_out[i2].uid@
                                    &&& uid_matches(raws@[k], key_id@, primary@, old_out[i2])
                                    &&& forall|m: int|
                                        k < m < p ==> raws@[m].uid@ != old_out[i2].uid@
                                };
                            assert(raws@[p as int].uid@ == gb.uid@);
                            assert(out@[i2].uid@ != gb.uid@);
                            assert(forall|m: int|
                                k0 < m < p + 1 ==> raws@[m].uid@ != out@[i2].uid@);
                            assert((raws@[k0]).uid@ == out@[i2].uid@);
                        }
                    }
                    assert(uids_match_prefix(raws@, key_id@, primary@, p as int + 1, out@));
                }
            },
        }
        p = p + 1;
    }
    out
}

/// The built key of an accepted certificate, at the reference time `as_of`.
fn build_key(raw: &RawCert, as_of: u64) -> (r: OpenPgpKey)
    ensures
        key_matches(*raw, as_of, r),
        r.wf(),
{
    let primary: String = match &raw.primary_user_id {
        Some(p) => p.clone(),
        None => String::new(),
    };
    let user_ids = build_uids(&raw.fingerprint, &primary, &raw.user_ids);
    let key = OpenPgpKey {
        id: raw.fingerprint.clone(),
        is_revoked: raw.is_revoked,
        is_expired: match &raw.expiration_time {
            Some(t) => *t < as_of,
            None => false,
        },
        user_ids,
        primary_user_id: primary,
    };
    key
}

/// Whether `text` occurs in the explicit id list `l`.
fn contains_text(l: &Vec<String>, text: &String) -> (r: bool)
    ensures
        r == has_text(l@, text@),
{
    let mut i: usize = 0;
    while i < l.len()
        invariant
            0 <= i <= l@.len(),
            forall|j: int| 0 <= j < i ==> l@[j]@ != text@,
        decreases l@.len() - i,
    {
        if l[i].eq(text) {
            return true;
        }
        i = i + 1;
    }
    false
}

/// Builds the model from the supplied certificates at the reference time
/// `as_of`. A certificate that failed the policy check is dropped; when
/// `restrict` is supplied, so is every certificate whose key id is not in
/// it; and of several accepted certificates with the same key id the last
/// one wins.
#[verifier::rlimit(60)]
pub fn build_model(certs: &Vec<RawCert>, as_of: u64, restrict: &Option<Vec<String>>) -> (r: KeySet)
    ensures
        r.wf(),
        model_match(certs@, as_of, *restrict, r.keys@),
{
    let mut out = KeySet::new();
    let mut p: usize = 0;
    while p < certs.len()
        invariant
            0 <= p <= certs@.len(),
            out.wf(),
            model_match_prefix(certs@, as_of, *restrict, p as int, out.keys@),
        decreases certs@.len() - p,
    {
        let cert = &certs[p];
        let take = cert.policy_ok && (match restrict {
            Some(l) => contains_text(l, &cert.fingerprint),
            None => true,
        });
        proof {
            assert(take == accepted(certs@[p as int], *restrict));
        }
        if take {
            let key = build_key(cert, as_of);
            let ghost gk = key;
            let ghost old_keys = out.keys@;
            match find_key_index(&out.keys, &key.id) {
                Some(i) => {
                    out.keys.set(i, key);
                    proof {
                        assert(out.keys@ =~= old_keys.update(i as int, gk));
                        assert(forall|a: int|
                            0 <= a < out.keys@.len() ==> (#[trigger] out.keys@[a]).id@
                                == old_keys[a].id@);
                        assert forall|k: int|
                            0 <= k < p + 1 && accepted(
                                #[trigger] certs@[k],
                                *restrict,
                            ) implies has_key(out.keys@, certs@[k].fingerprint@) by {
                            if k < p {
                                let j = choose|j: int|
                                    0 <= j < old_keys.len() && old_keys[j].id@
                                        == certs@[k].fingerprint@;
                                assert(out.keys@[j].id@ == certs@[k].fingerprint@);
                            } else {
                                assert(out.keys@[i as int].id@ == certs@[k].fingerprint@);
                            }
                        }
                        assert forall|i2: int| 0 <= i2 < out.keys@.len() implies key_from_last(
                            certs@,
                            as_of,
                            *restrict,
                            p as int + 1,
                            #[trigger] out.keys@[i2],
                        ) by {
                            if i2 == i {
                                assert(out.keys@[i2] == gk);
                                lemma_key_from_last_new(
                                    certs@,
                                    as_of,
                                    *restrict,
                                    p as int,
                                    out.keys@[i2],
                                );
                            } else {
                                assert(old_keys[i2] == out.keys@[i2]);
                                if i2 < i {
                                    assert(old_keys[i2].id@ != old_keys[i as int].id@);
                                } else {
                                    assert(old_keys[i as int].id@ != old_keys[i2].id@);
                                }
                                assert(certs@[p as int].fingerprint@ == gk.id@);
                                lemma_key_from_last_extend(
                                    certs@,
                                    as_of,
                                    *restrict,
                                    p as int,
                                    out.keys@[i2],
                                );
                            }
                        }
                        assert(model_match_prefix(
                            certs@,
                            as_of,
                            *restrict,
                            p as int + 1,
                            out.keys@,
                        ));
                    }
                },
                None => {
                    out.keys.push(key);
                    proof {
                        assert(out.keys@ =~= old_keys.push(gk));
                        let ghost n = old_keys.len() as int;
                        assert forall|k: int|
                            0 <= k < p + 1 && accepted(
                                #[trigger] certs@[k],
                                *restrict,
                            ) implies has_key(out.keys@, certs@[k].fingerprint@) by {
                            if k < p {
                                let j = choose|j: int|
                                    0 <= j < old_keys.len() && old_keys[j].id@
                                        == certs@[k].fingerprint@;
                                assert(out.keys@[j].id@ == certs@[k].fingerprint@);
                            } else {
                                assert(out.keys@[n].id@ == certs@[k].fingerprint@);
                            }
                        }
                        assert forall|i2: int| 0 <= i2 < out.keys@.len() implies key_from_last(
                            certs@,
                            as_of,
                            *restrict,
                            p as int + 1,
                            #[trigger] out.keys@[i2],
                        ) by {
                            if i2 == n {
                                assert(out.keys@[i2] == gk);
                                lemma_key_from_last_new(
                                    certs@,
                                    as_of,
                                    *restrict,
                                    p as int,
                                    out.keys@[i2],
                                );
                            } else {
                                assert(old_keys[i2] == out.keys@[i2]);
                                assert(out.keys@[i2].id@ != gk.id@);
                                assert(certs@[p as int].fingerprint@ == gk.id@);
                                lemma_key_from_last_extend(
                                    certs@,
                                    as_of,
                                    *restrict,
                                    p as int,
                                    out.keys@[i2],
                                );
                            }
                        }
                        assert(model_match_prefix(
                            certs@,
                            as_of,
                            *restrict,
                            p as int + 1,
                            out.keys@,
                        ));
                    }
                },
            }
        } else {
            proof {
                lemma_model_prefix_skip(certs@, as_of, *restrict, p as int, out.keys@);
            }
        }
        p = p + 1;
    }
    out
}

} // verus!
