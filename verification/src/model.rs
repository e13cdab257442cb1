//! The identity model: plain value types for a key, its identities, and the
//! certifications made on them, together with the lookups the later pipeline
//! stages use.
use vstd::prelude::*;

verus! {

/// How strongly a certification delegates trust, bucketed from the raw
/// 0-255 trust amount carried by the signature.
#[derive(Debug, Clone, Copy, PartialEq, Eq, Structural)]
pub enum OpenPgpSigTrust {
    NoTrust,
    Partial,
    Complete,
}

impl OpenPgpSigTrust {
    /// The bucket a raw trust amount falls into: 0 is no trust, 1-119 is
    /// partial, 120-255 is complete.
    pub open spec fn spec_from_raw(raw: u8) -> OpenPgpSigTrust {
        if raw == 0 {
            OpenPgpSigTrust::NoTrust
        } else if raw < 120 {
            OpenPgpSigTrust::Partial
        } else {
            OpenPgpSigTrust::Complete
        }
    }

    pub fn from_raw(raw: u8) -> (r: OpenPgpSigTrust)
        ensures
            r == OpenPgpSigTrust::spec_from_raw(raw),
    {
        if raw == 0 {
            OpenPgpSigTrust::NoTrust
        } else if raw < 120 {
            OpenPgpSigTrust::Partial
        } else {
            OpenPgpSigTrust::Complete
        }
    }
}

/// The kind of a certification, from the signature type byte of the
/// certification: the four OpenPGP certification kinds, certification
/// revocation, or an unknown kind preserving the original byte.
#[derive(Debug, Clone, Copy, PartialEq, Eq, Structural)]
pub enum SigType {
    Generic,
    Persona,
    Casual,
    Positive,
    Revocation,
    Unknown(u8),
}

impl SigType {
    /// The kind a raw signature type byte maps to: 0x10-0x13 are the four
    /// certification kinds, 0x30 is certification revocation, anything else
    /// is kept as an unknown kind with its byte.
    pub open spec fn spec_from_raw(raw: u8) -> SigType {
        if raw == 0x10 {
            SigType::Generic
        } else if raw == 0x11 {
            SigType::Persona
        } else if raw == 0x12 {
            SigType::Casual
        } else if raw == 0x13 {
            SigType::Positive
        } else if raw == 0x30 {
            SigType::Revocation
        } else {
            SigType::Unknown(raw)
        }
    }

    pub fn from_raw(raw: u8) -> (r: SigType)
        ensures
            r == SigType::spec_from_raw(raw),
    {
        if raw == 0x10 {
            SigType::Generic
        } else if raw == 0x11 {
            SigType::Persona
        } else if raw == 0x12 {
            SigType::Casual
        } else if raw == 0x13 {
            SigType::Positive
        } else if raw == 0x30 {
            SigType::Revocation
        } else {
            SigType::Unknown(raw)
        }
    }
}

/// One certification on an identity: a statement by the key named
/// `fingerprint` vouching for the identity that carries this record.
/// An empty `fingerprint` means the signature declared no issuer; such a
/// certification is kept but fails every later lookup.
#[derive(Debug)]
pub struct OpenPgpSig {
    /// The issuer's key id; empty when the signature declares no issuer.
    pub fingerprint: String,
    /// The issuer's identity text; empty when the signature declares none.
    pub uid: String,
    /// The trust depth of a trust signature; 0 when not a trust signature.
    pub trust_level: u8,
    /// The trust amount, bucketed.
    pub trust_value: OpenPgpSigTrust,
    /// The kind of the certification.
    pub sig_type: SigType,
    /// Seconds since the epoch at which the signature was created.
    pub creation_time: u64,
}

impl OpenPgpSig {
    /// The issuer's key id.
    pub fn key(&self) -> (r: &String)
        ensures
            r == &self.fingerprint,
    {
        &self.fingerprint
    }

    /// The issuer's identity text.
    pub fn uid(&self) -> (r: &String)
        ensures
            r == &self.uid,
    {
        &self.uid
    }
}

/// One identity on a key: a human-readable claim bound to the key
/// `fingerprint`, with the certifications made on it.
#[derive(Debug)]
pub struct OpenPgpUid {
    /// The id of the key this identity belongs to.
    pub fingerprint: String,
    /// The full identity text.
    pub uid: String,
    /// The name component; empty if absent or malformed.
    pub name: String,
    /// The email component; empty if absent or malformed.
    pub email: String,
    /// The comment component; empty if absent or malformed.
    pub comment: String,
    /// The certifications made on this identity, in signature order.
    pub sig_vec: Vec<OpenPgpSig>,
    /// Whether this identity is revoked.
    pub is_revoked: bool,
    /// Whether this identity is the key's primary identity.
    pub is_primary: bool,
}

impl OpenPgpUid {
    /// The id of the key this identity belongs to.
    pub fn key(&self) -> (r: &String)
        ensures
            r == &self.fingerprint,
    {
        &self.fingerprint
    }

    /// The full identity text.
    pub fn uid(&self) -> (r: &String)
        ensures
            r == &self.uid,
    {
        &self.uid
    }
}

/// Identities are the same identity when key id and identity text agree,
/// whatever the other fields hold.
impl PartialEq for OpenPgpUid {
    fn eq(&self, other: &OpenPgpUid) -> (r: bool) {
        self.fingerprint.eq(&other.fingerprint) && self.uid.eq(&other.uid)
    }
}

impl vstd::std_specs::cmp::PartialEqSpecImpl for OpenPgpUid {
    open spec fn obeys_eq_spec() -> bool {
        true
    }

    open spec fn eq_spec(&self, other: &OpenPgpUid) -> bool {
        self.fingerprint@ == other.fingerprint@ && self.uid@ == other.uid@
    }
}

/// One key with all its identities.
#[derive(Debug)]
pub struct OpenPgpKey {
    /// The key's unique id.
    pub id: String,
    /// Whether the key is revoked.
    pub is_revoked: bool,
    /// Whether the key is expired.
    pub is_expired: bool,
    /// The identities bound to the key; their texts are pairwise distinct.
    pub user_ids: Vec<OpenPgpUid>,
    /// The text of the key's declared primary identity; empty if none.
    pub primary_user_id: String,
}

/// Keys are the same key when their ids agree, whatever the other fields
/// hold.
impl PartialEq for OpenPgpKey {
    fn eq(&self, other: &OpenPgpKey) -> (r: bool) {
        self.id.eq(&other.id)
    }
}

impl vstd::std_specs::cmp::PartialEqSpecImpl for OpenPgpKey {
    open spec fn obeys_eq_spec() -> bool {
        true
    }

    open spec fn eq_spec(&self, other: &OpenPgpKey) -> bool {
        self.id@ == other.id@
    }
}

/// Whether some identity in `uids` carries the text `uid`.
pub open spec fn has_uid(uids: Seq<OpenPgpUid>, uid: Seq<char>) -> bool {
    exists|i: int| 0 <= i < uids.len() && uids[i].uid@ == uid
}

impl OpenPgpKey {
    /// A key is well formed when its identity texts are pairwise distinct,
    /// every identity points back at this key, and an identity is primary
    /// exactly when its text is the key's declared primary identity text.
    pub open spec fn wf(self) -> bool {
        &&& forall|i: int, j: int|
            0 <= i < j < self.user_ids@.len() ==> self.user_ids@[i].uid@ != self.user_ids@[j].uid@
        &&& forall|i: int|
            0 <= i < self.user_ids@.len() ==> (#[trigger] self.user_ids@[i]).fingerprint@
                == self.id@
        &&& forall|i: int|
            0 <= i < self.user_ids@.len() ==> (#[trigger] self.user_ids@[i]).is_primary == (
            self.user_ids@[i].uid@ == self.primary_user_id@)
    }

    /// The identity with text `uid`, if the key has one.
    pub fn get_user_id<'a>(&'a self, uid: &String) -> (r: Option<&'a OpenPgpUid>)
        ensures
            match r {
                Some(u) => has_uid(self.user_ids@, uid@) && self.user_ids@.contains(*u) && u.uid@
                    == uid@,
                None => !has_uid(self.user_ids@, uid@),
            },
    {
        let mut i: usize = 0;
        while i < self.user_ids.len()
            invariant
                0 <= i <= self.user_ids@.len(),
                forall|j: int| 0 <= j < i ==> self.user_ids@[j].uid@ != uid@,
            decreases self.user_ids@.len() - i,
        {
            if self.user_ids[i].uid.eq(uid) {
                return Some(&self.user_ids[i]);
            }
            i = i + 1;
        }
        None
    }
}

/// Whether some key in `keys` carries the id `id`.
pub open spec fn has_key(keys: Seq<OpenPgpKey>, id: Seq<char>) -> bool {
    exists|i: int| 0 <= i < keys.len() && keys[i].id@ == id
}

/// The built model: every known key, each under its unique id. Rebuilt from
/// nothing on every run and read-only once handed to the later stages.
#[derive(Debug)]
pub struct KeySet {
    /// The keys, with pairwise distinct ids.
    pub keys: Vec<OpenPgpKey>,
}

impl KeySet {
    /// The model is well formed when key ids are pairwise distinct and every
    /// key is well formed.
    pub open spec fn wf(self) -> bool {
        &&& forall|i: int, j: int|
            0 <= i < j < self.keys@.len() ==> self.keys@[i].id@ != self.keys@[j].id@
        &&& forall|i: int| 0 <= i < self.keys@.len() ==> (#[trigger] self.keys@[i]).wf()
    }

    /// An empty model.
    pub fn new() -> (r: KeySet)
        ensures
            r.keys@.len() == 0,
            r.wf(),
    {
        KeySet { keys: Vec::new() }
    }

    /// The number of keys in the model.
    pub fn len(&self) -> (r: usize)
        ensures
            r == self.keys@.len(),
    {
        self.keys.len()
    }

    /// The key with id `id`, if the model holds one.
    pub fn get<'a>(&'a self, id: &String) -> (r: Option<&'a OpenPgpKey>)
        ensures
            match r {
                Some(k) => has_key(self.keys@, id@) && self.keys@.contains(*k) && k.id@ == id@,
                None => !has_key(self.keys@, id@),
            },
    {
        let mut i: usize = 0;
        while i < self.keys.len()
            invariant
                0 <= i <= self.keys@.len(),
                forall|j: int| 0 <= j < i ==> self.keys@[j].id@ != id@,
            decreases self.keys@.len() - i,
        {
            if self.keys[i].id.eq(id) {
                return Some(&self.keys[i]);
            }
            i = i + 1;
        }
        None
    }
}

/// The value type a graph vertex is keyed by: a key id together with one
/// identity text on that key. It never owns model data beyond these two
/// strings; rendering looks the pair up in the model again.
#[derive(Debug)]
pub struct GraphNodeUid {
    /// The key id.
    pub fingerprint: String,
    /// The identity text.
    pub uid: String,
}

impl GraphNodeUid {
    /// The key id.
    pub fn key(&self) -> (r: &String)
        ensures
            r == &self.fingerprint,
    {
        &self.fingerprint
    }

    /// The identity text.
    pub fn uid(&self) -> (r: &String)
        ensures
            r == &self.uid,
    {
        &self.uid
    }

    /// The vertex key of an identity.
    pub fn of_uid(value: &OpenPgpUid) -> (r: GraphNodeUid)
        ensures
            r.fingerprint@ == value.fingerprint@,
            r.uid@ == value.uid@,
    {
        GraphNodeUid { fingerprint: value.fingerprint.clone(), uid: value.uid.clone() }
    }

}

/// Vertex keys are equal when both components agree.
impl PartialEq for GraphNodeUid {
    fn eq(&self, other: &GraphNodeUid) -> (r: bool) {
        self.fingerprint.eq(&other.fingerprint) && self.uid.eq(&other.uid)
    }
}

impl vstd::std_specs::cmp::PartialEqSpecImpl for GraphNodeUid {
    open spec fn obeys_eq_spec() -> bool {
        true
    }

    open spec fn eq_spec(&self, other: &GraphNodeUid) -> bool {
        self.fingerprint@ == other.fingerprint@ && self.uid@ == other.uid@
    }
}

/// What a graph edge carries: the certification's trust pair, kind and
/// creation time, without the issuer strings (the endpoints carry those).
#[derive(Debug, Clone, Copy, PartialEq, Eq, Structural)]
pub struct GraphEdgeSig {
    /// The trust depth of a trust signature; 0 when not a trust signature.
    pub trust_level: u8,
    /// The trust amount, bucketed.
    pub trust_value: OpenPgpSigTrust,
    /// The kind of the certification.
    pub sig_type: SigType,
    /// Seconds since the epoch at which the signature was created.
    pub creation_time: u64,
}

impl GraphEdgeSig {
    /// The edge payload of a certification.
    pub fn of_sig(value: &OpenPgpSig) -> (r: GraphEdgeSig)
        ensures
            r == (GraphEdgeSig {
                trust_level: value.trust_level,
                trust_value: value.trust_value,
                sig_type: value.sig_type,
                creation_time: value.creation_time,
            }),
    {
        GraphEdgeSig {
            trust_level: value.trust_level,
            trust_value: value.trust_value,
            sig_type: value.sig_type,
            creation_time: value.creation_time,
        }
    }
}

/// The identity a vertex key stands for: the key with the vertex's key id,
/// then that key's identity with the vertex's identity text. `None` when
/// either lookup fails.
pub fn get_pgp_uid_by_node_uid<'a>(key_set: &'a KeySet, uid: &GraphNodeUid) -> (r: Option<
    &'a OpenPgpUid,
>)
    requires
        key_set.wf(),
    ensures
        match r {
            Some(u) => {
                &&& has_key(key_set.keys@, uid.fingerprint@)
                &&& exists|i: int|
                    0 <= i < key_set.keys@.len() && key_set.keys@[i].id@ == uid.fingerprint@
                        && key_set.keys@[i].user_ids@.contains(*u)
                &&& u.uid@ == uid.uid@
            },
            None => !(exists|i: int|
                0 <= i < key_set.keys@.len() && key_set.keys@[i].id@ == uid.fingerprint@
                    && has_uid(#[trigger] key_set.keys@[i].user_ids@, uid.uid@)),
        },
    {
    let mut i: usize = 0;
    while i < key_set.keys.len()
        invariant
            key_set.wf(),
            0 <= i <= key_set.keys@.len(),
            forall|j: int| 0 <= j < i ==> key_set.keys@[j].id@ != uid.fingerprint@,
        decreases key_set.keys@.len() - i,
    {
        if key_set.keys[i].id.eq(&uid.fingerprint) {
            let key = &key_set.keys[i];
            let found = key.get_user_id(&uid.uid);
            match found {
                Some(u) => {
                    return Some(u);
                },
                None => {
                    assert forall|j: int|
                        0 <= j < key_set.keys@.len() && j != i implies key_set.keys@[j].id@
                        != uid.fingerprint@ by {
                        if i < j {
                            assert(key_set.keys@[i as int].id@ != key_set.keys@[j].id@);
                        }
                    }
                    return None;
                },
            }
        }
        i = i + 1;
    }
    None
}

} // verus!
