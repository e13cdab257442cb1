//! The layer assigner: a breadth-first traversal over the certifications
//! already present in the built model, assigning to every reachable key its
//! gossip layer, the hop distance from the requested roots. Layer 0 is
//! exactly the set of requested roots; every other reached key gets
//! 1 + the layer of a key that holds a certification naming it, and the
//! first discovery, which is the smallest such value, wins.
use vstd::prelude::*;

use crate::builder::has_text;
use crate::model::{KeySet, OpenPgpKey};

verus! {

/// Whether some certification on some identity of `key` names `to` as its
/// issuer.
pub open spec fn key_cites(key: OpenPgpKey, to: Seq<char>) -> bool {
    exists|j: int, s: int|
        0 <= j < key.user_ids@.len() && 0 <= s < key.user_ids@[j].sig_vec@.len() && (
        #[trigger] key.user_ids@[j].sig_vec@[s]).fingerprint@ == to
}

/// Whether the model holds a key with id `from` that carries a
/// certification naming `to` as its issuer: the step relation of the
/// breadth-first walk.
pub open spec fn cert_edge(keys: Seq<OpenPgpKey>, from: Seq<char>, to: Seq<char>) -> bool {
    exists|i: int| 0 <= i < keys.len() && (#[trigger] keys[i]).id@ == from && key_cites(keys[i], to)
}

/// Whether a certification chain of length exactly `n` leads from some root
/// to `id`: for `n` equal to 0 the id must itself be a root; otherwise some
/// key one step before it is reached by a chain of length `n - 1` and is in
/// the model with a certification naming `id`.
pub open spec fn has_chain(keys: Seq<OpenPgpKey>, roots: Seq<String>, id: Seq<char>, n: nat) -> bool
    decreases n,
{
    if n == 0 {
        has_text(roots, id)
    } else {
        exists|prev: Seq<char>|
            has_chain(keys, roots, prev, (n - 1) as nat) && #[trigger] cert_edge(keys, prev, id)
    }
}

/// Whether the layer map holds the entry (`id`, `l`).
pub open spec fn entry_in(s: Seq<(String, u16)>, id: Seq<char>, l: int) -> bool {
    exists|j: int| 0 <= j < s.len() && (#[trigger] s[j]).0@ == id && s[j].1 == l
}

/// Whether the layer map holds an entry for `id` at all.
pub open spec fn map_has(s: Seq<(String, u16)>, id: Seq<char>) -> bool {
    exists|j: int| 0 <= j < s.len() && (#[trigger] s[j]).0@ == id
}

/// Whether the layer map holds an entry for `id` with layer at most
/// `bound`.
pub open spec fn entry_at_most(s: Seq<(String, u16)>, id: Seq<char>, bound: int) -> bool {
    exists|j: int| 0 <= j < s.len() && (#[trigger] s[j]).0@ == id && s[j].1 <= bound
}

/// Whether the layer map's ids are pairwise distinct.
pub open spec fn distinct_entries(s: Seq<(String, u16)>) -> bool {
    forall|a: int, b: int| 0 <= a < b < s.len() ==> s[a].0@ != s[b].0@
}

/// Whether every entry is sound: its layer is at most `bound`, a chain of
/// exactly its layer's length reaches its id, and no shorter chain does.
pub open spec fn layers_sound(
    keys: Seq<OpenPgpKey>,
    roots: Seq<String>,
    s: Seq<(String, u16)>,
    bound: int,
) -> bool {
    forall|j: int|
        #![trigger s[j]]
        0 <= j < s.len() ==> {
            &&& s[j].1 <= bound
            &&& has_chain(keys, roots, s[j].0@, s[j].1 as nat)
            &&& forall|m: nat| m < s[j].1 ==> !(#[trigger] has_chain(keys, roots, s[j].0@, m))
        }
}

/// Whether every id reached by a chain of length at most `n` has an entry
/// with layer at most that length.
pub open spec fn complete_upto(
    keys: Seq<OpenPgpKey>,
    roots: Seq<String>,
    s: Seq<(String, u16)>,
    n: int,
) -> bool {
    forall|id: Seq<char>, m: nat|
        m <= n && #[trigger] has_chain(keys, roots, id, m) ==> entry_at_most(s, id, m as int)
}

/// What the layer assigner promises of its result: ids are pairwise
/// distinct, every entry's layer is the length of a shortest certification
/// chain from a root to its id, and every id reached by any chain has an
/// entry.
pub open spec fn layers_correct(
    keys: Seq<OpenPgpKey>,
    roots: Seq<String>,
    s: Seq<(String, u16)>,
) -> bool {
    &&& distinct_entries(s)
    &&& forall|j: int|
        #![trigger s[j]]
        0 <= j < s.len() ==> {
            &&& has_chain(keys, roots, s[j].0@, s[j].1 as nat)
            &&& forall|m: nat| m < s[j].1 ==> !(#[trigger] has_chain(keys, roots, s[j].0@, m))
        }
    &&& forall|id: Seq<char>, n: nat|
        #[trigger] has_chain(keys, roots, id, n) ==> map_has(s, id)
}

/// The gossip layer map: each reached key id with its layer. Absence of an
/// entry means the key was not reached by the walk.
#[derive(Debug)]
pub struct LayerMap {
    /// The entries, with pairwise distinct ids.
    pub entries: Vec<(String, u16)>,
}

impl LayerMap {
    /// The map is well formed when its ids are pairwise distinct.
    pub open spec fn wf(self) -> bool {
        distinct_entries(self.entries@)
    }

    /// An empty layer map.
    pub fn new() -> (r: LayerMap)
        ensures
            r.entries@.len() == 0,
            r.wf(),
    {
        LayerMap { entries: Vec::new() }
    }

    /// The layer assigned to `id`, if the walk reached it.
    pub fn get(&self, id: &String) -> (r: Option<u16>)
        ensures
            match r {
                Some(l) => entry_in(self.entries@, id@, l as int),
                None => !map_has(self.entries@, id@),
            },
    {
        let mut j: usize = 0;
        while j < self.entries.len()
            invariant
                0 <= j <= self.entries@.len(),
                forall|a: int| 0 <= a < j ==> self.entries@[a].0@ != id@,
            decreases self.entries@.len() - j,
        {
            if self.entries[j].0.eq(id) {
                return Some(self.entries[j].1);
            }
            j = j + 1;
        }
        None
    }
}

/// Two runs of the layer assigner on the same model and roots agree: any
/// two layer maps that are correct for the same model and roots hold
/// exactly the same entries. The layer map is therefore a function of the
/// model and the roots alone.
pub proof fn lemma_layering_idempotent(
    keys: Seq<OpenPgpKey>,
    roots: Seq<String>,
    s1: Seq<(String, u16)>,
    s2: Seq<(String, u16)>,
)
    requires
        layers_correct(keys, roots, s1),
        layers_correct(keys, roots, s2),
    ensures
        forall|id: Seq<char>, l: int| entry_in(s1, id, l) <==> entry_in(s2, id, l),
{
    assert forall|id: Seq<char>, l: int| entry_in(s1, id, l) implies entry_in(s2, id, l) by {
        lemma_correct_maps_agree(keys, roots, s1, s2, id, l);
    }
    assert forall|id: Seq<char>, l: int| entry_in(s2, id, l) implies entry_in(s1, id, l) by {
        lemma_correct_maps_agree(keys, roots, s2, s1, id, l);
    }
}

/// An entry of one correct layer map is an entry of any other correct layer
/// map for the same model and roots.
proof fn lemma_correct_maps_agree(
    keys: Seq<OpenPgpKey>,
    roots: Seq<String>,
    s1: Seq<(String, u16)>,
    s2: Seq<(String, u16)>,
    id: Seq<char>,
    l: int,
)
    requires
        layers_correct(keys, roots, s1),
        layers_correct(keys, roots, s2),
        entry_in(s1, id, l),
    ensures
        entry_in(s2, id, l),
{
    let j1 = choose|j: int| 0 <= j < s1.len() && (#[trigger] s1[j]).0@ == id && s1[j].1 == l;
    assert(has_chain(keys, roots, id, s1[j1].1 as nat));
    assert(map_has(s2, id));
    let j2 = choose|j: int| 0 <= j < s2.len() && (#[trigger] s2[j]).0@ == id;
    let l2 = s2[j2].1;
    assert(has_chain(keys, roots, id, l2 as nat));
    if l2 < l {
        assert(!has_chain(keys, roots, s1[j1].0@, l2 as nat));
        assert(false);
    }
    if l < l2 {
        assert(!has_chain(keys, roots, s2[j2].0@, s1[j1].1 as nat));
        assert(false);
    }
    assert(l2 == l);
}

/// Whether `next` holds exactly the texts of the entries with layer `l`:
/// every such entry's id is in `next`, every element of `next` has such an
/// entry, and `next` holds no text twice.
pub open spec fn next_sync(s: Seq<(String, u16)>, next: Seq<String>, l: int) -> bool {
    &&& forall|j: int| #![trigger s[j]] 0 <= j < s.len() && s[j].1 == l ==> has_text(next, s[j].0@)
    &&& forall|q: int| 0 <= q < next.len() ==> entry_in(s, (#[trigger] next[q])@, l)
    &&& forall|a: int, b: int| 0 <= a < b < next.len() ==> next[a]@ != next[b]@
}

/// Whether every entry with a layer below `bound` is fully expanded: each
/// id its key's certifications name has an entry at most one layer deeper.
pub open spec fn closed_below(keys: Seq<OpenPgpKey>, s: Seq<(String, u16)>, bound: int) -> bool {
    forall|j: int, to: Seq<char>|
        0 <= j < s.len() && s[j].1 < bound && #[trigger] cert_edge(keys, s[j].0@, to)
            ==> entry_at_most(s, to, s[j].1 + 1)
}

/// Whether the first `upto` frontier ids are fully expanded: each id named
/// by a certification on a model key with a frontier id has an entry with
/// layer at most `bound`.
pub open spec fn frontier_closed(
    keys: Seq<OpenPgpKey>,
    s: Seq<(String, u16)>,
    fr: Seq<String>,
    upto: int,
    bound: int,
) -> bool {
    forall|q: int, ix: int, to: Seq<char>|
        #![trigger fr[q], key_cites(keys[ix], to)]
        0 <= q < upto && 0 <= ix < keys.len() && keys[ix].id@ == fr[q]@ && key_cites(keys[ix], to)
            ==> entry_at_most(s, to, bound)
}

/// Whether the layer map already holds an entry for `id`.
fn map_contains(entries: &Vec<(String, u16)>, id: &String) -> (r: bool)
    ensures
        r == map_has(entries@, id@),
{
    let mut j: usize = 0;
    while j < entries.len()
        invariant
            0 <= j <= entries@.len(),
            forall|a: int| 0 <= a < j ==> entries@[a].0@ != id@,
        decreases entries@.len() - j,
    {
        if entries[j].0.eq(id) {
            return true;
        }
        j = j + 1;
    }
    false
}

/// Records one issuer id named by a certification on a frontier key: when
/// it has no entry yet, it gets one at `layer_next` and joins the staged
/// next frontier.
#[verifier::rlimit(100)]
fn record_issuer(
    Ghost(keys): Ghost<Seq<OpenPgpKey>>,
    Ghost(roots): Ghost<Seq<String>>,
    Ghost(prev): Ghost<Seq<char>>,
    issuer: &String,
    layer_next: u16,
    entries: &mut Vec<(String, u16)>,
    next: &mut Vec<String>,
)
    requires
        layer_next >= 1,
        has_chain(keys, roots, prev, (layer_next - 1) as nat),
        cert_edge(keys, prev, issuer@),
        distinct_entries(old(entries)@),
        layers_sound(keys, roots, old(entries)@, layer_next as int),
        complete_upto(keys, roots, old(entries)@, layer_next as int - 1),
        next_sync(old(entries)@, old(next)@, layer_next as int),
    ensures
        final(entries)@.len() >= old(entries)@.len(),
        forall|a: int| 0 <= a < old(entries)@.len() ==> final(entries)@[a] == old(entries)@[a],
        final(next)@.len() >= old(next)@.len(),
        forall|q: int| 0 <= q < old(next)@.len() ==> final(next)@[q] == old(next)@[q],
        final(entries)@.len() - old(entries)@.len() == final(next)@.len() - old(next)@.len(),
        distinct_entries(final(entries)@),
        layers_sound(keys, roots, final(entries)@, layer_next as int),
        complete_upto(keys, roots, final(entries)@, layer_next as int - 1),
        next_sync(final(entries)@, final(next)@, layer_next as int),
        entry_at_most(final(entries)@, issuer@, layer_next as int),
        forall|id: Seq<char>, b: int|
            entry_at_most(old(entries)@, id, b) ==> entry_at_most(final(entries)@, id, b),
        forall|id: Seq<char>, l: int|
            entry_in(old(entries)@, id, l) ==> entry_in(final(entries)@, id, l),
        forall|a: int|
            old(entries)@.len() <= a < final(entries)@.len()
                ==> (#[trigger] final(entries)@[a]).1 == layer_next,
{
    if !map_contains(entries, issuer) {
        let ghost pre = entries@;
        let ghost pren = next@;
        entries.push((issuer.clone(), layer_next));
        next.push(issuer.clone());
        proof {
            let last = pre.len() as int;
            assert(entries@[last].0@ == issuer@ && entries@[last].1 == layer_next);
            assert(forall|a: int| 0 <= a < pre.len() ==> entries@[a] == pre[a]);
            // The new id is reached by a chain one longer than the chain
            // that reaches the key citing it.
            assert(((layer_next as nat) - 1) as nat == (layer_next - 1) as nat);
            assert(has_chain(keys, roots, issuer@, layer_next as nat));
            // No shorter chain reaches it, else it would already hold an
            // entry.
            assert forall|m: nat| m < layer_next implies !has_chain(keys, roots, issuer@, m) by {
                if has_chain(keys, roots, issuer@, m) {
                    assert(entry_at_most(pre, issuer@, m as int));
                    assert(map_has(pre, issuer@));
                }
            }
            assert forall|a: int| #![trigger entries@[a]] 0 <= a < entries@.len() implies {
                &&& entries@[a].1 <= layer_next as int
                &&& has_chain(keys, roots, entries@[a].0@, entries@[a].1 as nat)
                &&& forall|m: nat|
                    m < entries@[a].1 ==> !(#[trigger] has_chain(keys, roots, entries@[a].0@, m))
            } by {
                if a < last {
                    assert(entries@[a] == pre[a]);
                }
            }
            assert(layers_sound(keys, roots, entries@, layer_next as int));
            assert forall|id: Seq<char>, b: int|
                entry_at_most(pre, id, b) implies entry_at_most(entries@, id, b) by {
                let w = choose|w: int|
                    0 <= w < pre.len() && (#[trigger] pre[w]).0@ == id && pre[w].1 <= b;
                assert(entries@[w] == pre[w]);
            }
            assert forall|id: Seq<char>, l: int|
                entry_in(pre, id, l) implies entry_in(entries@, id, l) by {
                let w = choose|w: int|
                    0 <= w < pre.len() && (#[trigger] pre[w]).0@ == id && pre[w].1 == l;
                assert(entries@[w] == pre[w]);
            }
            assert forall|id: Seq<char>, m: nat|
                m <= layer_next as int - 1 && #[trigger] has_chain(keys, roots, id, m) implies
            entry_at_most(entries@, id, m as int) by {
                assert(entry_at_most(pre, id, m as int));
            }
            assert(complete_upto(keys, roots, entries@, layer_next as int - 1));
            // The staged frontier stays in step with the entries.
            assert forall|q: int| 0 <= q < next@.len() implies entry_in(
                entries@,
                (#[trigger] next@[q])@,
                layer_next as int,
            ) by {
                if q < pren.len() {
                    assert(next@[q] == pren[q]);
                    let w = choose|w: int|
                        0 <= w < pre.len() && (#[trigger] pre[w]).0@ == pren[q]@ && pre[w].1
                            == layer_next as int;
                    assert(entries@[w] == pre[w]);
                } else {
                    assert(next@[q]@ == issuer@);
                }
            }
            assert forall|a: int, b: int| 0 <= a < b < next@.len() implies next@[a]@ != next@[b]@
                by {
                if b < pren.len() {
                    assert(next@[a] == pren[a] && next@[b] == pren[b]);
                } else {
                    assert(next@[b]@ == issuer@);
                    if a < pren.len() {
                        assert(entry_in(pre, pren[a]@, layer_next as int));
                        assert(map_has(pre, next@[a]@));
                    }
                }
            }
            assert forall|jj: int|
                #![trigger entries@[jj]]
                0 <= jj < entries@.len() && entries@[jj].1 == layer_next as int implies has_text(
                next@,
                entries@[jj].0@,
            ) by {
                if jj < last {
                    assert(entries@[jj] == pre[jj]);
                    assert(has_text(pren, pre[jj].0@));
                    let w = choose|w: int| 0 <= w < pren.len() && (#[trigger] pren[w])@
                        == pre[jj].0@;
                    assert(next@[w]@ == entries@[jj].0@);
                } else {
                    assert(next@[next@.len() - 1]@ == entries@[jj].0@);
                }
            }
            assert(next_sync(entries@, next@, layer_next as int));
        }
    } else {
        proof {
            let w = choose|w: int|
                0 <= w < entries@.len() && (#[trigger] entries@[w]).0@ == issuer@;
            assert(entries@[w].1 <= layer_next as int);
            assert(entry_at_most(entries@, issuer@, layer_next as int));
        }
    }
}

/// Expands one frontier key: every id named as issuer by a certification on
/// one of its identities that has no entry yet gets one at `layer_next`, and
/// is staged for the next frontier.
#[verifier::rlimit(100)]
fn expand_key(
    Ghost(keys): Ghost<Seq<OpenPgpKey>>,
    Ghost(roots): Ghost<Seq<String>>,
    key: &OpenPgpKey,
    layer_next: u16,
    entries: &mut Vec<(String, u16)>,
    next: &mut Vec<String>,
)
    requires
        keys.contains(*key),
        layer_next >= 1,
        has_chain(keys, roots, key.id@, (layer_next - 1) as nat),
        distinct_entries(old(entries)@),
        layers_sound(keys, roots, old(entries)@, layer_next as int),
        complete_upto(keys, roots, old(entries)@, layer_next as int - 1),
        next_sync(old(entries)@, old(next)@, layer_next as int),
    ensures
        final(entries)@.len() >= old(entries)@.len(),
        forall|a: int| 0 <= a < old(entries)@.len() ==> final(entries)@[a] == old(entries)@[a],
        final(next)@.len() >= old(next)@.len(),
        forall|q: int| 0 <= q < old(next)@.len() ==> final(next)@[q] == old(next)@[q],
        final(entries)@.len() - old(entries)@.len() == final(next)@.len() - old(next)@.len(),
        distinct_entries(final(entries)@),
        layers_sound(keys, roots, final(entries)@, layer_next as int),
        complete_upto(keys, roots, final(entries)@, layer_next as int - 1),
        next_sync(final(entries)@, final(next)@, layer_next as int),
        forall|to: Seq<char>|
            #[trigger] key_cites(*key, to) ==> entry_at_most(
                final(entries)@,
                to,
                layer_next as int,
            ),
        forall|id: Seq<char>, b: int|
            entry_at_most(old(entries)@, id, b) ==> entry_at_most(final(entries)@, id, b),
        forall|id: Seq<char>, l: int|
            entry_in(old(entries)@, id, l) ==> entry_in(final(entries)@, id, l),
        forall|a: int|
            old(entries)@.len() <= a < final(entries)@.len()
                ==> (#[trigger] final(entries)@[a]).1 == layer_next,
{
    let ghost oe = entries@;
    let ghost on = next@;
    let mut j: usize = 0;
    while j < key.user_ids.len()
        invariant
            0 <= j <= key.user_ids@.len(),
            keys.contains(*key),
            layer_next >= 1,
            has_chain(keys, roots, key.id@, (layer_next - 1) as nat),
            entries@.len() >= oe.len(),
            forall|a: int| 0 <= a < oe.len() ==> entries@[a] == oe[a],
            next@.len() >= on.len(),
            forall|q: int| 0 <= q < on.len() ==> next@[q] == on[q],
            entries@.len() - oe.len() == next@.len() - on.len(),
            forall|a: int|
                oe.len() <= a < entries@.len() ==> (#[trigger] entries@[a]).1 == layer_next,
            distinct_entries(entries@),
            layers_sound(keys, roots, entries@, layer_next as int),
            complete_upto(keys, roots, entries@, layer_next as int - 1),
            next_sync(entries@, next@, layer_next as int),
            forall|jj: int, ss: int|
                #![trigger key.user_ids@[jj].sig_vec@[ss]]
                0 <= jj < j && 0 <= ss < key.user_ids@[jj].sig_vec@.len() ==> entry_at_most(
                    entries@,
                    key.user_ids@[jj].sig_vec@[ss].fingerprint@,
                    layer_next as int,
                ),
        decreases key.user_ids@.len() - j,
    {
        let uid = &key.user_ids[j];
        let mut s: usize = 0;
        while s < uid.sig_vec.len()
            invariant
                0 <= s <= uid.sig_vec@.len(),
                0 <= j < key.user_ids@.len(),
                uid == &key.user_ids@[j as int],
                keys.contains(*key),
                layer_next >= 1,
                has_chain(keys, roots, key.id@, (layer_next - 1) as nat),
                entries@.len() >= oe.len(),
                forall|a: int| 0 <= a < oe.len() ==> entries@[a] == oe[a],
                next@.len() >= on.len(),
                forall|q: int| 0 <= q < on.len() ==> next@[q] == on[q],
                entries@.len() - oe.len() == next@.len() - on.len(),
                forall|a: int|
                    oe.len() <= a < entries@.len() ==> (#[trigger] entries@[a]).1 == layer_next,
                distinct_entries(entries@),
                layers_sound(keys, roots, entries@, layer_next as int),
                complete_upto(keys, roots, entries@, layer_next as int - 1),
                next_sync(entries@, next@, layer_next as int),
                forall|jj: int, ss: int|
                    #![trigger key.user_ids@[jj].sig_vec@[ss]]
                    0 <= jj < j && 0 <= ss < key.user_ids@[jj].sig_vec@.len() ==> entry_at_most(
                        entries@,
                        key.user_ids@[jj].sig_vec@[ss].fingerprint@,
                        layer_next as int,
                    ),
                forall|ss: int|
                    #![trigger uid.sig_vec@[ss]]
                    0 <= ss < s ==> entry_at_most(
                        entries@,
                        uid.sig_vec@[ss].fingerprint@,
                        layer_next as int,
                    ),
            decreases uid.sig_vec@.len() - s,
        {
            let issuer = &uid.sig_vec[s].fingerprint;
            proof {
                assert(key.user_ids@[j as int].sig_vec@[s as int].fingerprint@ == issuer@);
                assert(key_cites(*key, issuer@));
                let ix = choose|ix: int| 0 <= ix < keys.len() && keys[ix] == *key;
                assert(keys[ix].id@ == key.id@ && key_cites(keys[ix], issuer@));
                assert(cert_edge(keys, key.id@, issuer@));
            }
            record_issuer(
                Ghost(keys),
                Ghost(roots),
                Ghost(key.id@),
                issuer,
                layer_next,
                entries,
                next,
            );
            s = s + 1;
        }
        j = j + 1;
    }
    proof {
        assert forall|to: Seq<char>| #[trigger] key_cites(*key, to) implies entry_at_most(
            entries@,
            to,
            layer_next as int,
        ) by {
            let (jj, ss): (int, int) = choose|jj: int, ss: int|
                0 <= jj < key.user_ids@.len() && 0 <= ss < key.user_ids@[jj].sig_vec@.len() && (
                #[trigger] key.user_ids@[jj].sig_vec@[ss]).fingerprint@ == to;
            assert(entry_at_most(entries@, key.user_ids@[jj].sig_vec@[ss].fingerprint@,
            layer_next as int));
        }
        assert forall|id: Seq<char>, b: int|
            entry_at_most(oe, id, b) implies entry_at_most(entries@, id, b) by {
            let w = choose|w: int| 0 <= w < oe.len() && (#[trigger] oe[w]).0@ == id && oe[w].1
                <= b;
            assert(entries@[w] == oe[w]);
        }
        assert forall|id: Seq<char>, l: int|
            entry_in(oe, id, l) implies entry_in(entries@, id, l) by {
            let w = choose|w: int| 0 <= w < oe.len() && (#[trigger] oe[w]).0@ == id && oe[w].1
                == l;
            assert(entries@[w] == oe[w]);
        }
    }
}

/// Once the walk has stopped, every id reached by a chain of any length
/// has an entry, with a layer no deeper than the chain's length: the
/// breadth-first walk reached a fixed point.
#[verifier::rlimit(100)]
proof fn lemma_complete_all(
    keys: Seq<OpenPgpKey>,
    roots: Seq<String>,
    s: Seq<(String, u16)>,
    fr: Seq<String>,
    i: int,
    id: Seq<char>,
    n: nat,
)
    requires
        i >= 0,
        layers_sound(keys, roots, s, i),
        complete_upto(keys, roots, s, i),
        closed_below(keys, s, i),
        next_sync(s, fr, i),
        frontier_closed(keys, s, fr, fr.len() as int, i + 1),
        has_chain(keys, roots, id, n),
    ensures
        entry_at_most(
            s,
            id,
            if n as int <= i {
                n as int
            } else {
                i
            },
        ),
        map_has(s, id),
    decreases n,
{
    let cap: int = if n as int <= i {
        n as int
    } else {
        i
    };
    if n as int <= i {
        assert(entry_at_most(s, id, n as int));
    } else {
        let prevv = choose|prev: Seq<char>|
            has_chain(keys, roots, prev, (n - 1) as nat) && #[trigger] cert_edge(keys, prev, id);
        lemma_complete_all(keys, roots, s, fr, i, prevv, (n - 1) as nat);
        let pcap: int = if (n - 1) as int <= i {
            (n - 1) as int
        } else {
            i
        };
        let w = choose|w: int|
            0 <= w < s.len() && (#[trigger] s[w]).0@ == prevv && s[w].1 <= pcap;
        if s[w].1 < i {
            assert(cert_edge(keys, s[w].0@, id));
            assert(entry_at_most(s, id, s[w].1 + 1));
            let w2 = choose|w2: int|
                0 <= w2 < s.len() && (#[trigger] s[w2]).0@ == id && s[w2].1 <= s[w].1 + 1;
            assert(s[w2].1 <= cap);
            assert(entry_at_most(s, id, cap));
        } else {
            assert(s[w].1 == i);
            assert(has_text(fr, s[w].0@));
            let qq = choose|qq: int| 0 <= qq < fr.len() && (#[trigger] fr[qq])@ == prevv;
            let ix = choose|ix: int|
                0 <= ix < keys.len() && (#[trigger] keys[ix]).id@ == prevv && key_cites(
                    keys[ix],
                    id,
                );
            assert(key_cites(keys[ix], id) && keys[ix].id@ == fr[qq]@);
            assert(entry_at_most(s, id, i + 1));
            let w3 = choose|w3: int|
                0 <= w3 < s.len() && (#[trigger] s[w3]).0@ == id && s[w3].1 <= i + 1;
            assert(s[w3].1 <= i);
            assert(entry_at_most(s, id, cap));
        }
    }
    let wm = choose|wm: int| 0 <= wm < s.len() && (#[trigger] s[wm]).0@ == id && s[wm].1 <= cap;
    assert(map_has(s, id));
}

/// Assigns a gossip layer to every key reached from the roots: layer 0 is
/// the roots themselves, and a key first reached while expanding layer `i`
/// gets layer `i + 1`. A key reachable along several chains keeps the
/// smallest layer, and a key no chain reaches gets no entry.
#[verifier::rlimit(100)]
pub fn assign_layers(model: &KeySet, roots: &Vec<String>) -> (r: LayerMap)
    requires
        model.wf(),
        model.keys@.len() < 65535,
    ensures
        r.wf(),
        layers_correct(model.keys@, roots@, r.entries@),
{
    let ghost keys: Seq<OpenPgpKey> = model.keys@;
    let mut entries: Vec<(String, u16)> = Vec::new();
    let mut frontier: Vec<String> = Vec::new();

    // Layer 0: the requested roots, each recorded once.
    let mut p: usize = 0;
    while p < roots.len()
        invariant
            0 <= p <= roots@.len(),
            distinct_entries(entries@),
            layers_sound(keys, roots@, entries@, 0),
            next_sync(entries@, frontier@, 0),
            forall|k: int| 0 <= k < p ==> entry_at_most(entries@, (#[trigger] roots@[k])@, 0),
        decreases roots@.len() - p,
    {
        let root = &roots[p];
        if !map_contains(&entries, root) {
            let ghost pre = entries@;
            let ghost pren = frontier@;
            entries.push((root.clone(), 0u16));
            frontier.push(root.clone());
            proof {
                let last = pre.len() as int;
                assert(entries@[last].0@ == root@ && entries@[last].1 == 0);
                assert(forall|a: int| 0 <= a < pre.len() ==> entries@[a] == pre[a]);
                assert(roots@[p as int]@ == root@);
                assert(has_text(roots@, root@));
                assert(has_chain(keys, roots@, root@, 0));
                assert forall|a: int| #![trigger entries@[a]] 0 <= a < entries@.len() implies {
                    &&& entries@[a].1 <= 0
                    &&& has_chain(keys, roots@, entries@[a].0@, entries@[a].1 as nat)
                    &&& forall|m: nat|
                        m < entries@[a].1 ==> !(#[trigger] has_chain(
                            keys,
                            roots@,
                            entries@[a].0@,
                            m,
                        ))
                } by {
                    if a < last {
                        assert(entries@[a] == pre[a]);
                    }
                }
                assert(layers_sound(keys, roots@, entries@, 0));
                assert forall|q: int| 0 <= q < frontier@.len() implies entry_in(
                    entries@,
                    (#[trigger] frontier@[q])@,
                    0,
                ) by {
                    if q < pren.len() {
                        assert(frontier@[q] == pren[q]);
                        let w = choose|w: int|
                            0 <= w < pre.len() && (#[trigger] pre[w]).0@ == pren[q]@ && pre[w].1
                                == 0;
                        assert(entries@[w] == pre[w]);
                    } else {
                        assert(frontier@[q]@ == root@);
                    }
                }
                assert forall|a: int, b: int| 0 <= a < b < frontier@.len() implies frontier@[a]@
                    != frontier@[b]@ by {
                    if b < pren.len() {
                        assert(frontier@[a] == pren[a] && frontier@[b] == pren[b]);
                    } else {
                        assert(frontier@[b]@ == root@);
                        if a < pren.len() {
                            assert(entry_in(pre, pren[a]@, 0));
                            assert(map_has(pre, frontier@[a]@));
                        }
                    }
                }
                assert forall|jj: int|
                    #![trigger entries@[jj]]
                    0 <= jj < entries@.len() && entries@[jj].1 == 0 implies has_text(
                    frontier@,
                    entries@[jj].0@,
                ) by {
                    if jj < last {
                        assert(entries@[jj] == pre[jj]);
                        assert(has_text(pren, pre[jj].0@));
                        let w = choose|w: int| 0 <= w < pren.len() && (#[trigger] pren[w])@
                            == pre[jj].0@;
                        assert(frontier@[w]@ == entries@[jj].0@);
                    } else {
                        assert(frontier@[frontier@.len() - 1]@ == entries@[jj].0@);
                    }
                }
                assert(next_sync(entries@, frontier@, 0));
                assert forall|k: int| 0 <= k < p + 1 implies entry_at_most(
                    entries@,
                    (#[trigger] roots@[k])@,
                    0,
                ) by {
                    if k < p {
                        let w = choose|w: int|
                            0 <= w < pre.len() && (#[trigger] pre[w]).0@ == roots@[k]@ && pre[w].1
                                <= 0;
                        assert(entries@[w] == pre[w]);
                    } else {
                        assert(entries@[last].0@ == roots@[k]@);
                    }
                }
            }
        } else {
            proof {
                let w = choose|w: int|
                    0 <= w < entries@.len() && (#[trigger] entries@[w]).0@ == root@;
                assert(entries@[w].1 <= 0);
                assert(roots@[p as int]@ == root@);
                assert(entry_at_most(entries@, roots@[p as int]@, 0));
            }
        }
        p = p + 1;
    }
    proof {
        assert forall|id: Seq<char>, m: nat|
            m <= 0 && #[trigger] has_chain(keys, roots@, id, m) implies entry_at_most(
            entries@,
            id,
            m as int,
        ) by {
            assert(has_text(roots@, id));
            let k = choose|k: int| 0 <= k < roots@.len() && (#[trigger] roots@[k])@ == id;
            assert(entry_at_most(entries@, roots@[k]@, 0));
        }
        assert(complete_upto(keys, roots@, entries@, 0));
        assert(closed_below(keys, entries@, 0));
    }

    let mut i: u16 = 0;
    let ghost mut expanded: Set<int> = Set::empty();
    proof {
        vstd::set_lib::lemma_int_range(0, keys.len() as int);
        assert(expanded.subset_of(vstd::set_lib::set_int_range(0, keys.len() as int)));
    }
    loop
        invariant_except_break
            forall|ix: int|
                #[trigger] expanded.contains(ix) ==> 0 <= ix < keys.len() && entry_at_most(
                    entries@,
                    keys[ix].id@,
                    i as int - 1,
                ),
        invariant
            model.wf(),
            keys == model.keys@,
            keys.len() < 65535,
            distinct_entries(entries@),
            layers_sound(keys, roots@, entries@, i as int),
            complete_upto(keys, roots@, entries@, i as int),
            next_sync(entries@, frontier@, i as int),
            closed_below(keys, entries@, i as int),
            expanded.finite(),
            expanded.subset_of(vstd::set_lib::set_int_range(0, keys.len() as int)),
            i as int <= expanded.len(),
            expanded.len() <= keys.len(),
        ensures
            distinct_entries(entries@),
            layers_sound(keys, roots@, entries@, i as int),
            complete_upto(keys, roots@, entries@, i as int),
            next_sync(entries@, frontier@, i as int),
            closed_below(keys, entries@, i as int),
            frontier_closed(keys, entries@, frontier@, frontier@.len() as int, i as int + 1),
        decreases keys.len() - i as int,
    {
        let ghost round_entries = entries@;
        let mut next: Vec<String> = Vec::new();
        let mut q: usize = 0;
        while q < frontier.len()
            invariant
                0 <= q <= frontier@.len(),
                model.wf(),
                keys == model.keys@,
                keys.len() < 65535,
                distinct_entries(entries@),
                layers_sound(keys, roots@, entries@, i as int + 1),
                complete_upto(keys, roots@, entries@, i as int),
                next_sync(entries@, frontier@, i as int),
                next_sync(entries@, next@, i as int + 1),
                closed_below(keys, entries@, i as int),
                entries@.len() >= round_entries.len(),
                forall|a: int| 0 <= a < round_entries.len() ==> entries@[a] == round_entries[a],
                entries@.len() - round_entries.len() == next@.len(),
                forall|a: int|
                    round_entries.len() <= a < entries@.len() ==> (#[trigger] entries@[a]).1
                        == i as int + 1,
                frontier_closed(keys, entries@, frontier@, q as int, i as int + 1),
                expanded.finite(),
                expanded.subset_of(vstd::set_lib::set_int_range(0, keys.len() as int)),
                i as int <= expanded.len(),
                expanded.len() <= keys.len(),
                next@.len() > 0 ==> i as int + 1 <= expanded.len(),
                forall|ix: int|
                    #[trigger] expanded.contains(ix) ==> 0 <= ix < keys.len() && (entry_at_most(
                        entries@,
                        keys[ix].id@,
                        i as int - 1,
                    ) || has_text(frontier@.subrange(0, q as int), keys[ix].id@)),
            decreases frontier@.len() - q,
        {
            let f = &frontier[q];
            let found = model.get(f);
            match found {
                Some(key) => {
                    proof {
                        let kx = choose|ix: int| 0 <= ix < keys.len() && keys[ix].id@ == f@;
                        let ix0 = choose|ix: int| 0 <= ix < keys.len() && keys[ix] == *key;
                        if ix0 != kx {
                            if ix0 < kx {
                                assert(keys[ix0].id@ != keys[kx].id@);
                            } else {
                                assert(keys[kx].id@ != keys[ix0].id@);
                            }
                        }
                        assert(keys[kx] == *key);
                        // This key has not been expanded before: its id
                        // carries layer `i`, while every expanded key's id
                        // carries an earlier layer or sits earlier in this
                        // frontier.
                        assert(entry_in(entries@, f@, i as int));
                        let wf_ = choose|w: int|
                            0 <= w < entries@.len() && (#[trigger] entries@[w]).0@ == f@
                                && entries@[w].1 == i as int;
                        if expanded.contains(kx) {
                            if entry_at_most(entries@, keys[kx].id@, i as int - 1) {
                                let wa = choose|w: int|
                                    0 <= w < entries@.len() && (#[trigger] entries@[w]).0@
                                        == keys[kx].id@ && entries@[w].1 <= i as int - 1;
                                assert(wa != wf_);
                                if wa < wf_ {
                                    assert(entries@[wa].0@ != entries@[wf_].0@);
                                } else {
                                    assert(entries@[wf_].0@ != entries@[wa].0@);
                                }
                                assert(false);
                            } else {
                                assert(has_text(
                                    frontier@.subrange(0, q as int),
                                    keys[kx].id@,
                                ));
                                let qq = choose|qq: int|
                                    0 <= qq < q && (#[trigger] frontier@.subrange(
                                        0,
                                        q as int,
                                    )[qq])@ == keys[kx].id@;
                                assert(frontier@[qq]@ == frontier@[q as int]@);
                                assert(false);
                            }
                        }
                        expanded = expanded.insert(kx);
                        vstd::set_lib::lemma_int_range(0, keys.len() as int);
                        assert(expanded.subset_of(vstd::set_lib::set_int_range(
                            0,
                            keys.len() as int,
                        )));
                        vstd::set_lib::lemma_len_subset(
                            expanded,
                            vstd::set_lib::set_int_range(0, keys.len() as int),
                        );
                        assert(i as int + 1 <= expanded.len());
                        assert(expanded.len() <= keys.len());
                    }
                    let layer_next: u16 = i + 1;
                    proof {
                        let wf_ = choose|w: int|
                            0 <= w < entries@.len() && (#[trigger] entries@[w]).0@ == f@
                                && entries@[w].1 == i as int;
                        assert(has_chain(keys, roots@, entries@[wf_].0@, entries@[wf_].1 as nat));
                        assert(entries@[wf_].1 as nat == (layer_next - 1) as nat);
                        assert(has_chain(keys, roots@, key.id@, (layer_next - 1) as nat));
                    }
                    let ghost pre_call = entries@;
                    expand_key(Ghost(keys), Ghost(roots@), key, layer_next, &mut entries,
                    &mut next);
                    proof {
                        // The frontier stays in step at layer `i`.
                        assert forall|jj: int|
                            #![trigger entries@[jj]]
                            0 <= jj < entries@.len() && entries@[jj].1 == i as int implies
                        has_text(frontier@, entries@[jj].0@) by {
                            if jj < pre_call.len() {
                                assert(entries@[jj] == pre_call[jj]);
                            } else {
                                assert(entries@[jj].1 == layer_next as int);
                                assert(false);
                            }
                        }
                        assert(next_sync(entries@, frontier@, i as int));
                        // Every expanded key stays accounted for.
                        assert forall|ix: int| #[trigger] expanded.contains(ix) implies 0 <= ix
                            < keys.len() && (entry_at_most(entries@, keys[ix].id@, i as int - 1)
                            || has_text(frontier@.subrange(0, q as int + 1), keys[ix].id@)) by {
                            if keys[ix].id@ == f@ {
                                assert(frontier@.subrange(0, q as int + 1)[q as int]@ == f@);
                                assert(has_text(
                                    frontier@.subrange(0, q as int + 1),
                                    keys[ix].id@,
                                ));
                            } else {
                                if entry_at_most(pre_call, keys[ix].id@, i as int - 1) {
                                } else {
                                    assert(has_text(
                                        frontier@.subrange(0, q as int),
                                        keys[ix].id@,
                                    ));
                                    let qq = choose|qq: int|
                                        0 <= qq < q && (#[trigger] frontier@.subrange(
                                            0,
                                            q as int,
                                        )[qq])@ == keys[ix].id@;
                                    assert(frontier@.subrange(0, q as int + 1)[qq]@
                                        == keys[ix].id@);
                                    assert(has_text(
                                        frontier@.subrange(0, q as int + 1),
                                        keys[ix].id@,
                                    ));
                                }
                            }
                        }
                        // Everything the expanded keys cite now has an
                        // entry.
                        assert forall|qq: int, ix: int, to: Seq<char>|
                            #![trigger frontier@[qq], key_cites(keys[ix], to)]
                            0 <= qq < q as int + 1 && 0 <= ix < keys.len() && keys[ix].id@
                                == frontier@[qq]@ && key_cites(keys[ix], to) implies
                        entry_at_most(entries@, to, i as int + 1) by {
                            if qq < q as int {
                                assert(entry_at_most(pre_call, to, i as int + 1));
                            } else {
                                let kx2 = choose|k2: int|
                                    0 <= k2 < keys.len() && keys[k2] == *key;
                                if ix != kx2 {
                                    if ix < kx2 {
                                        assert(keys[ix].id@ != keys[kx2].id@);
                                    } else {
                                        assert(keys[kx2].id@ != keys[ix].id@);
                                    }
                                    assert(false);
                                }
                                assert(key_cites(*key, to));
                            }
                        }
                        // Entries below the current layer stay fully
                        // expanded.
                        assert forall|j: int, to: Seq<char>|
                            0 <= j < entries@.len() && entries@[j].1 < i as int
                                && #[trigger] cert_edge(keys, entries@[j].0@, to) implies
                        entry_at_most(entries@, to, entries@[j].1 + 1) by {
                            if j < pre_call.len() {
                                assert(entries@[j] == pre_call[j]);
                                assert(entry_at_most(pre_call, to, pre_call[j].1 + 1));
                            } else {
                                assert(entries@[j].1 == layer_next as int);
                                assert(false);
                            }
                        }
                        assert(closed_below(keys, entries@, i as int));
                    }
                },
                None => {
                    proof {
                        assert forall|qq: int, ix: int, to: Seq<char>|
                            #![trigger frontier@[qq], key_cites(keys[ix], to)]
                            0 <= qq < q as int + 1 && 0 <= ix < keys.len() && keys[ix].id@
                                == frontier@[qq]@ && key_cites(keys[ix], to) implies
                        entry_at_most(entries@, to, i as int + 1) by {
                            if qq == q as int {
                                assert(crate::model::has_key(keys, f@));
                                assert(false);
                            }
                        }
                        assert forall|ix: int| #[trigger] expanded.contains(ix) implies 0 <= ix
                            < keys.len() && (entry_at_most(entries@, keys[ix].id@, i as int - 1)
                            || has_text(frontier@.subrange(0, q as int + 1), keys[ix].id@)) by {
                            if entry_at_most(entries@, keys[ix].id@, i as int - 1) {
                            } else {
                                assert(has_text(frontier@.subrange(0, q as int), keys[ix].id@));
                                let qq = choose|qq: int|
                                    0 <= qq < q && (#[trigger] frontier@.subrange(
                                        0,
                                        q as int,
                                    )[qq])@ == keys[ix].id@;
                                assert(frontier@.subrange(0, q as int + 1)[qq]@ == keys[ix].id@);
                                assert(has_text(
                                    frontier@.subrange(0, q as int + 1),
                                    keys[ix].id@,
                                ));
                            }
                        }
                    }
                },
            }
            q = q + 1;
        }
        if next.len() == 0 {
            proof {
                assert(entries@ =~= round_entries);
                assert(layers_sound(keys, roots@, entries@, i as int));
                assert(frontier_closed(
                    keys,
                    entries@,
                    frontier@,
                    frontier@.len() as int,
                    i as int + 1,
                ));
            }
            break ;
        }
        proof {
            // Chains one longer than the finished layer are now covered.
            assert forall|id: Seq<char>, m: nat|
                m <= i as int + 1 && #[trigger] has_chain(keys, roots@, id, m) implies
            entry_at_most(entries@, id, m as int) by {
                if m <= i as int {
                } else {
                    let prevv = choose|prev: Seq<char>|
                        has_chain(keys, roots@, prev, (m - 1) as nat) && #[trigger] cert_edge(
                            keys,
                            prev,
                            id,
                        );
                    assert(has_chain(keys, roots@, prevv, (m - 1) as nat));
                    assert(entry_at_most(entries@, prevv, (m - 1) as int));
                    let w = choose|w: int|
                        0 <= w < entries@.len() && (#[trigger] entries@[w]).0@ == prevv
                            && entries@[w].1 <= (m - 1) as int;
                    if entries@[w].1 < i as int {
                        assert(cert_edge(keys, entries@[w].0@, id));
                        assert(entry_at_most(entries@, id, entries@[w].1 + 1));
                        let w2 = choose|w2: int|
                            0 <= w2 < entries@.len() && (#[trigger] entries@[w2]).0@ == id
                                && entries@[w2].1 <= entries@[w].1 + 1;
                        assert(entries@[w2].1 <= m as int);
                        assert(entry_at_most(entries@, id, m as int));
                    } else {
                        assert(entries@[w].1 == i as int);
                        assert(has_text(frontier@, entries@[w].0@));
                        let qq = choose|qq: int|
                            0 <= qq < frontier@.len() && (#[trigger] frontier@[qq])@ == prevv;
                        let ix = choose|ix: int|
                            0 <= ix < keys.len() && (#[trigger] keys[ix]).id@ == prevv
                                && key_cites(keys[ix], id);
                        assert(keys[ix].id@ == frontier@[qq]@ && key_cites(keys[ix], id));
                        assert(entry_at_most(entries@, id, i as int + 1));
                    }
                }
            }
            assert(complete_upto(keys, roots@, entries@, i as int + 1));
            // Every entry at the finished layer is now fully expanded.
            assert forall|j: int, to: Seq<char>|
                0 <= j < entries@.len() && entries@[j].1 < i as int + 1
                    && #[trigger] cert_edge(keys, entries@[j].0@, to) implies entry_at_most(
                entries@,
                to,
                entries@[j].1 + 1,
            ) by {
                if entries@[j].1 < i as int {
                } else {
                    assert(entries@[j].1 == i as int);
                    assert(has_text(frontier@, entries@[j].0@));
                    let qq = choose|qq: int|
                        0 <= qq < frontier@.len() && (#[trigger] frontier@[qq])@
                            == entries@[j].0@;
                    let ix = choose|ix: int|
                        0 <= ix < keys.len() && (#[trigger] keys[ix]).id@ == entries@[j].0@
                            && key_cites(keys[ix], to);
                    assert(keys[ix].id@ == frontier@[qq]@ && key_cites(keys[ix], to));
                    assert(entry_at_most(entries@, to, i as int + 1));
                }
            }
            assert(closed_below(keys, entries@, i as int + 1));
            // Every expanded key now sits strictly below the next layer.
            assert forall|ix: int| #[trigger] expanded.contains(ix) implies 0 <= ix < keys.len()
                && entry_at_most(entries@, keys[ix].id@, i as int) by {
                if entry_at_most(entries@, keys[ix].id@, i as int - 1) {
                    let w = choose|w: int|
                        0 <= w < entries@.len() && (#[trigger] entries@[w]).0@ == keys[ix].id@
                            && entries@[w].1 <= i as int - 1;
                    assert(entry_at_most(entries@, keys[ix].id@, i as int));
                } else {
                    assert(has_text(
                        frontier@.subrange(0, frontier@.len() as int),
                        keys[ix].id@,
                    ));
                    let qq = choose|qq: int|
                        0 <= qq < frontier@.len() && (#[trigger] frontier@.subrange(
                            0,
                            frontier@.len() as int,
                        )[qq])@ == keys[ix].id@;
                    assert(frontier@[qq]@ == keys[ix].id@);
                    assert(entry_in(entries@, frontier@[qq]@, i as int));
                    let w = choose|w: int|
                        0 <= w < entries@.len() && (#[trigger] entries@[w]).0@ == frontier@[qq]@
                            && entries@[w].1 == i as int;
                    assert(entry_at_most(entries@, keys[ix].id@, i as int));
                }
            }
        }
        i = i + 1;
        frontier = next;
    }
    proof {
        assert forall|id: Seq<char>, n: nat| #[trigger] has_chain(keys, roots@, id, n) implies
        map_has(entries@, id) by {
            lemma_complete_all(keys, roots@, entries@, frontier@, i as int, id, n);
        }
        assert(layers_correct(keys, roots@, entries@));
    }
    LayerMap { entries }
}

/// Depth monotonicity: a key assigned layer `l` is reached by a
/// certification chain of length exactly `l` from some root, and by no
/// shorter chain.
pub proof fn lemma_depth_monotonicity(
    keys: Seq<OpenPgpKey>,
    roots: Seq<String>,
    s: Seq<(String, u16)>,
    id: Seq<char>,
    l: u16,
)
    requires
        layers_correct(keys, roots, s),
        entry_in(s, id, l as int),
    ensures
        has_chain(keys, roots, id, l as nat),
        forall|m: nat| m < l ==> !(#[trigger] has_chain(keys, roots, id, m)),
{
    let j = choose|j: int| 0 <= j < s.len() && (#[trigger] s[j]).0@ == id && s[j].1 == l as int;
    assert(has_chain(keys, roots, s[j].0@, s[j].1 as nat));
    assert(forall|m: nat| m < l ==> !(#[trigger] has_chain(keys, roots, s[j].0@, m)));
}

/// Whether a key stays in the model filtered to `max_depth`: the walk
/// reached it, and, unless `max_depth` is 0 (meaning unlimited), at a layer
/// no deeper than `max_depth`.
pub open spec fn kept_at_depth(key: OpenPgpKey, s: Seq<(String, u16)>, max_depth: u8) -> bool {
    exists|j: int|
        0 <= j < s.len() && (#[trigger] s[j]).0@ == key.id@ && (max_depth == 0 || s[j].1
            <= max_depth)
}

/// Whether `key` is one of the first `p` model keys and the depth filter
/// keeps it.
pub open spec fn from_kept_prefix(
    all: Seq<OpenPgpKey>,
    s: Seq<(String, u16)>,
    max_depth: u8,
    p: int,
    key: OpenPgpKey,
) -> bool {
    exists|k: int|
        0 <= k < p && #[trigger] all[k] == key && kept_at_depth(all[k], s, max_depth)
}

/// How a filtered model relates to the first `p` keys of the full one: ids
/// stay pairwise distinct, every kept key is one of the first `p` that the
/// depth filter keeps, and every such key is kept.
pub open spec fn filter_prefix_ok(
    all: Seq<OpenPgpKey>,
    s: Seq<(String, u16)>,
    max_depth: u8,
    p: int,
    kept: Seq<OpenPgpKey>,
) -> bool {
    &&& forall|a: int, b: int| 0 <= a < b < kept.len() ==> kept[a].id@ != kept[b].id@
    &&& forall|i: int|
        0 <= i < kept.len() ==> from_kept_prefix(all, s, max_depth, p, #[trigger] kept[i])
    &&& forall|k: int|
        0 <= k < p && kept_at_depth(#[trigger] all[k], s, max_depth) ==> kept.contains(all[k])
}

/// A key kept from the first `p` model keys is kept from the first `p + 1`.
proof fn lemma_from_kept_prefix_extend(
    all: Seq<OpenPgpKey>,
    s: Seq<(String, u16)>,
    max_depth: u8,
    p: int,
    key: OpenPgpKey,
)
    requires
        0 <= p,
        from_kept_prefix(all, s, max_depth, p, key),
    ensures
        from_kept_prefix(all, s, max_depth, p + 1, key),
{
    let k0 = choose|k: int|
        0 <= k < p && #[trigger] all[k] == key && kept_at_depth(all[k], s, max_depth);
    assert(0 <= k0 < p + 1 && all[k0] == key && kept_at_depth(all[k0], s, max_depth));
}

/// A dropped key extends the prefix a filtered model matches without
/// changing it.
proof fn lemma_filter_prefix_skip(
    all: Seq<OpenPgpKey>,
    s: Seq<(String, u16)>,
    max_depth: u8,
    p: int,
    kept: Seq<OpenPgpKey>,
)
    requires
        0 <= p < all.len(),
        filter_prefix_ok(all, s, max_depth, p, kept),
        !kept_at_depth(all[p], s, max_depth),
    ensures
        filter_prefix_ok(all, s, max_depth, p + 1, kept),
{
    assert forall|i: int| 0 <= i < kept.len() implies from_kept_prefix(
        all,
        s,
        max_depth,
        p + 1,
        #[trigger] kept[i],
    ) by {
        lemma_from_kept_prefix_extend(all, s, max_depth, p, kept[i]);
    }
    assert forall|k: int|
        0 <= k < p + 1 && kept_at_depth(#[trigger] all[k], s, max_depth) implies kept.contains(
        all[k],
    ) by {
        assert(k != p);
    }
}

/// A kept key extends the prefix when it is appended.
proof fn lemma_filter_prefix_push(
    all: Seq<OpenPgpKey>,
    s: Seq<(String, u16)>,
    max_depth: u8,
    p: int,
    kept: Seq<OpenPgpKey>,
)
    requires
        0 <= p < all.len(),
        forall|a: int, b: int| 0 <= a < b < all.len() ==> all[a].id@ != all[b].id@,
        filter_prefix_ok(all, s, max_depth, p, kept.drop_last()),
        kept.len() >= 1,
        kept.last() == all[p],
        kept_at_depth(all[p], s, max_depth),
    ensures
        filter_prefix_ok(all, s, max_depth, p + 1, kept),
{
    let pre = kept.drop_last();
    let last = kept.len() - 1;
    assert(forall|i: int| 0 <= i < last ==> kept[i] == pre[i]);
    assert forall|a: int, b: int| 0 <= a < b < kept.len() implies kept[a].id@ != kept[b].id@ by {
        if b < last {
            assert(kept[a] == pre[a] && kept[b] == pre[b]);
        } else {
            assert(kept[a] == pre[a]);
            assert(from_kept_prefix(all, s, max_depth, p, pre[a]));
            let ka = choose|k: int|
                0 <= k < p && #[trigger] all[k] == pre[a] && kept_at_depth(all[k], s, max_depth);
            assert(all[ka].id@ != all[p].id@);
        }
    }
    assert forall|i: int| 0 <= i < kept.len() implies from_kept_prefix(
        all,
        s,
        max_depth,
        p + 1,
        #[trigger] kept[i],
    ) by {
        if i < last {
            assert(kept[i] == pre[i]);
            lemma_from_kept_prefix_extend(all, s, max_depth, p, kept[i]);
        } else {
            assert(0 <= p < p + 1 && all[p] == kept[i] && kept_at_depth(all[p], s, max_depth));
        }
    }
    assert forall|k: int|
        0 <= k < p + 1 && kept_at_depth(#[trigger] all[k], s, max_depth) implies kept.contains(
        all[k],
    ) by {
        if k < p {
            let w = choose|w: int| 0 <= w < pre.len() && pre[w] == all[k];
            assert(kept[w] == all[k]);
        } else {
            assert(kept[last] == all[k]);
        }
    }
}

/// Filters the model to the requested depth: a key the walk never reached is
/// dropped, and so is, when `max_depth` is not 0, a key deeper than
/// `max_depth`. A `max_depth` of 0 keeps every reached key.
pub fn filter_by_depth(model: KeySet, layers: &LayerMap, max_depth: u8) -> (r: KeySet)
    requires
        model.wf(),
        layers.wf(),
    ensures
        r.wf(),
        forall|i: int|
            #![trigger r.keys@[i]]
            0 <= i < r.keys@.len() ==> model.keys@.contains(r.keys@[i]) && kept_at_depth(
                r.keys@[i],
                layers.entries@,
                max_depth,
            ),
        forall|k: int|
            0 <= k < model.keys@.len() && kept_at_depth(
                #[trigger] model.keys@[k],
                layers.entries@,
                max_depth,
            ) ==> r.keys@.contains(model.keys@[k]),
{
    let ghost all = model.keys@;
    let mut rest = model.keys;
    let mut kept: Vec<OpenPgpKey> = Vec::new();
    let ghost mut p: int = 0;
    while rest.len() > 0
        invariant
            0 <= p <= all.len(),
            rest@ =~= all.subrange(p, all.len() as int),
            layers.wf(),
            forall|a: int, b: int| 0 <= a < b < all.len() ==> all[a].id@ != all[b].id@,
            forall|a: int| 0 <= a < all.len() ==> (#[trigger] all[a]).wf(),
            filter_prefix_ok(all, layers.entries@, max_depth, p, kept@),
        decreases rest@.len(),
    {
        let key = rest.remove(0);
        proof {
            assert(key == all[p]);
            assert(rest@ =~= all.subrange(p + 1, all.len() as int));
        }
        let keep = match layers.get(&key.id) {
            Some(l) => max_depth == 0 || l <= max_depth as u16,
            None => false,
        };
        proof {
            if !keep {
                // No entry, or the unique entry lies too deep: the key is
                // not kept at this depth.
                if map_has(layers.entries@, key.id@) {
                    let w = choose|w: int|
                        0 <= w < layers.entries@.len() && (#[trigger] layers.entries@[w]).0@
                            == key.id@;
                    assert forall|j: int|
                        0 <= j < layers.entries@.len() && (#[trigger] layers.entries@[j]).0@
                            == key.id@ implies !(max_depth == 0 || layers.entries@[j].1
                        <= max_depth) by {
                        if j < w {
                            assert(layers.entries@[j].0@ != layers.entries@[w].0@);
                        }
                        if w < j {
                            assert(layers.entries@[w].0@ != layers.entries@[j].0@);
                        }
                    }
                }
                assert(!kept_at_depth(all[p], layers.entries@, max_depth));
            }
        }
        if keep {
            let ghost pre_kept = kept@;
            kept.push(key);
            proof {
                assert(kept@.drop_last() =~= pre_kept);
                assert(kept@.last() == all[p]);
                lemma_filter_prefix_push(all, layers.entries@, max_depth, p, kept@);
            }
        } else {
            proof {
                lemma_filter_prefix_skip(all, layers.entries@, max_depth, p, kept@);
            }
        }
        proof {
            p = p + 1;
        }
    }
    proof {
        assert(p == all.len());
        assert(filter_prefix_ok(all, layers.entries@, max_depth, all.len() as int, kept@));
        assert forall|i: int| #![trigger kept@[i]] 0 <= i < kept@.len() implies all.contains(
            kept@[i],
        ) && kept_at_depth(kept@[i], layers.entries@, max_depth) && kept@[i].wf() by {
            assert(from_kept_prefix(all, layers.entries@, max_depth, all.len() as int, kept@[i]));
            let k = choose|k: int|
                0 <= k < all.len() && #[trigger] all[k] == kept@[i] && kept_at_depth(
                    all[k],
                    layers.entries@,
                    max_depth,
                );
            assert(all[k].wf());
        }
    }
    KeySet { keys: kept }
}

} // verus!


