//! The gossip fetcher: depth-bounded recursive retrieval of additional
//! certificates, seeded from the explicitly requested identifiers. An
//! identifier already fetched is never requested again, a failed lookup is
//! skipped and never fatal, and the walk proceeds frontier by frontier until
//! the frontier is empty or the depth budget is exhausted. A depth of 0
//! means unlimited depth, which the boundary only allows against a static,
//! already-imported certificate set.
use vstd::prelude::*;

use crate::builder::{has_text, RawCert, RawSig, RawUid};

verus! {

/// The issuer ids declared by a sequence of raw certifications, in order;
/// a certification that declares no issuer contributes nothing.
pub open spec fn sig_issuers(sigs: Seq<RawSig>) -> Seq<Seq<char>>
    decreases sigs.len(),
{
    if sigs.len() == 0 {
        Seq::<Seq<char>>::empty()
    } else {
        let rest = sig_issuers(sigs.drop_last());
        match sigs.last().issuer_fingerprint {
            Some(f) => rest.push(f@),
            None => rest,
        }
    }
}

/// The issuer ids declared by every certification on every identity of a
/// certificate, in order: the next frontier a fetched certificate opens.
pub open spec fn cert_issuers(uids: Seq<RawUid>) -> Seq<Seq<char>>
    decreases uids.len(),
{
    if uids.len() == 0 {
        Seq::<Seq<char>>::empty()
    } else {
        cert_issuers(uids.drop_last()) + sig_issuers(uids.last().sigs@)
    }
}

/// The texts of a sequence of strings.
pub open spec fn texts(v: Seq<String>) -> Seq<Seq<char>> {
    v.map_values(|s: String| s@)
}

/// Whether the certificate at position `i` of the table declares `to` as
/// the issuer of some certification on some of its identities: one
/// issuer-hop of the walk.
pub open spec fn cites(table: Seq<RawCert>, i: int, to: Seq<char>) -> bool {
    exists|j: int, si: int|
        0 <= j < table[i].user_ids@.len() && 0 <= si < table[i].user_ids@[j].sigs@.len() && match (
        #[trigger] table[i].user_ids@[j].sigs@[si]).issuer_fingerprint {
            Some(f) => f@ == to,
            None => false,
        }
}

/// Whether some certificate fetched at position `lo` or later cites `to`.
pub open spec fn cited_by_new(table: Seq<RawCert>, result: Seq<usize>, lo: int, to: Seq<char>) -> bool {
    exists|i: int| lo <= i < result.len() && #[trigger] cites(table, result[i] as int, to)
}

/// Whether the table holds a certificate with id `fp`.
pub open spec fn in_table(table: Seq<RawCert>, fp: Seq<char>) -> bool {
    exists|t: int| 0 <= t < table.len() && (#[trigger] table[t]).fingerprint@ == fp
}

/// Whether `fp` lies within `h` issuer-hops of the seeds: it is a seed
/// itself, or some certificate within `h - 1` hops cites it.
pub open spec fn within_hops(
    table: Seq<RawCert>,
    seeds: Seq<String>,
    fp: Seq<char>,
    h: nat,
) -> bool
    decreases h,
{
    if h == 0 {
        has_text(seeds, fp)
    } else {
        within_hops(table, seeds, fp, (h - 1) as nat) || exists|i: int|
            0 <= i < table.len() && within_hops(table, seeds, table[i].fingerprint@, (h - 1) as nat)
                && #[trigger] cites(table, i, fp)
    }
}

/// Lying within `h1` hops means lying within any larger bound.
proof fn lemma_within_hops_mono(
    table: Seq<RawCert>,
    seeds: Seq<String>,
    fp: Seq<char>,
    h1: nat,
    h2: nat,
)
    requires
        within_hops(table, seeds, fp, h1),
        h1 <= h2,
    ensures
        within_hops(table, seeds, fp, h2),
    decreases h2,
{
    if h1 < h2 {
        lemma_within_hops_mono(table, seeds, fp, h1, (h2 - 1) as nat);
    }
}

/// Whether the accumulated result already holds the certificate whose id is
/// `id`.
pub open spec fn fetched(table: Seq<RawCert>, result: Seq<usize>, id: Seq<char>) -> bool {
    exists|i: int|
        0 <= i < result.len() && table[(#[trigger] result[i]) as int].fingerprint@ == id
}

/// Whether some string in `v` reads `t`.
fn contains_text(v: &Vec<String>, t: &String) -> (r: bool)
    ensures
        r == crate::builder::has_text(v@, t@),
{
    let mut i: usize = 0;
    while i < v.len()
        invariant
            0 <= i <= v@.len(),
            forall|a: int| 0 <= a < i ==> v@[a]@ != t@,
        decreases v@.len() - i,
    {
        if v[i].eq(t) {
            return true;
        }
        i = i + 1;
    }
    false
}

/// The decisions of the networked gossip walk, one request at a time. The
/// surrounding loop asks for the next identifier to fetch, performs the
/// lookup, and reports the outcome; the fetcher never hands out an
/// identifier it has already recorded as fetched, stages the issuer ids of
/// each fetched certificate while depth budget remains, and moves to the
/// next frontier when the current one is exhausted.
pub struct GossipFetcher {
    /// The ids fetched so far, in fetch order, pairwise distinct.
    pub fetched_ids: Vec<String>,
    /// The frontier currently being worked through.
    pub frontier: Vec<String>,
    /// The position of the next candidate in the frontier.
    pub pos: usize,
    /// The ids staged for the next frontier.
    pub staged: Vec<String>,
    /// The id handed out by the last request, until its outcome is
    /// reported.
    pub pending: Option<String>,
    /// The hops that remain after the current frontier; meaningless when
    /// `unlimited` is set.
    pub hops_left: u8,
    /// Whether the walk was started with depth 0, meaning unlimited depth.
    pub unlimited: bool,
}

impl GossipFetcher {
    /// The fetcher's invariant: fetched ids are pairwise distinct, and the
    /// candidate position never passes the frontier's end.
    pub open spec fn wf(self) -> bool {
        &&& forall|a: int, b: int|
            0 <= a < b < self.fetched_ids@.len() ==> self.fetched_ids@[a]@
                != self.fetched_ids@[b]@
        &&& self.pos <= self.frontier@.len()
    }

    /// A walk over the given seeds with the given depth budget; 0 means
    /// unlimited.
    pub fn new(seeds: Vec<String>, depth: u8) -> (r: GossipFetcher)
        ensures
            r.wf(),
            r.fetched_ids@.len() == 0,
            r.pending is None,
            r.frontier@ == seeds@,
            r.pos == 0,
            r.staged@.len() == 0,
            r.hops_left == depth,
            r.unlimited == (depth == 0),
    {
        GossipFetcher {
            fetched_ids: Vec::new(),
            frontier: seeds,
            pos: 0,
            staged: Vec::new(),
            pending: None,
            hops_left: depth,
            unlimited: depth == 0,
        }
    }

    /// The next identifier to request from the keyserver, or nothing when
    /// the walk is complete. An id already fetched is never handed out
    /// again; one handed out comes from the frontier or the staged ids; and
    /// nothing is returned only when the walk is exhausted: every id still
    /// ahead in the frontier is already fetched, and, while depth budget
    /// remained, so is every staged id.
    pub fn next_request(&mut self) -> (r: Option<String>)
        requires
            old(self).wf(),
            old(self).pending is None,
        ensures
            final(self).wf(),
            final(self).fetched_ids@ == old(self).fetched_ids@,
            final(self).unlimited == old(self).unlimited,
            final(self).hops_left <= old(self).hops_left,
            match r {
                Some(id) => {
                    &&& final(self).pending matches Some(p) && p@ == id@
                    &&& !crate::builder::has_text(final(self).fetched_ids@, id@)
                    &&& crate::builder::has_text(old(self).frontier@, id@)
                        || crate::builder::has_text(old(self).staged@, id@)
                },
                None => {
                    &&& final(self).pending is None
                    &&& forall|q: int|
                        old(self).pos <= q < old(self).frontier@.len()
                            ==> crate::builder::has_text(
                            final(self).fetched_ids@,
                            (#[trigger] old(self).frontier@[q])@,
                        )
                    &&& (old(self).unlimited || old(self).hops_left > 0) ==> forall|q: int|
                        0 <= q < old(self).staged@.len() ==> crate::builder::has_text(
                            final(self).fetched_ids@,
                            (#[trigger] old(self).staged@[q])@,
                        )
                },
            },
    {
        loop
            invariant
                self.wf(),
                self.pending is None,
                self.fetched_ids@ == old(self).fetched_ids@,
                self.unlimited == old(self).unlimited,
                self.hops_left <= old(self).hops_left,
                ({
                    // Still working through the frontier the call started
                    // with.
                    &&& self.frontier@ == old(self).frontier@
                    &&& self.staged@ == old(self).staged@
                    &&& self.hops_left == old(self).hops_left
                    &&& old(self).pos <= self.pos
                    &&& forall|q: int|
                        old(self).pos <= q < self.pos ==> crate::builder::has_text(
                            self.fetched_ids@,
                            (#[trigger] self.frontier@[q])@,
                        )
                } || {
                    // Moved on to the staged ids: everything ahead in the
                    // starting frontier was already fetched.
                    &&& self.frontier@ == old(self).staged@
                    &&& self.staged@.len() == 0
                    &&& (old(self).unlimited || old(self).hops_left > 0)
                    &&& forall|q: int|
                        old(self).pos <= q < old(self).frontier@.len()
                            ==> crate::builder::has_text(
                            self.fetched_ids@,
                            (#[trigger] old(self).frontier@[q])@,
                        )
                    &&& forall|q: int|
                        0 <= q < self.pos ==> crate::builder::has_text(
                            self.fetched_ids@,
                            (#[trigger] self.frontier@[q])@,
                        )
                }),
            ensures
                self.wf(),
                self.fetched_ids@ == old(self).fetched_ids@,
            decreases self.staged@.len(), self.frontier@.len() - self.pos,
        {
            if self.pos < self.frontier.len() {
                let ghost at = self.pos as int;
                let candidate = self.frontier[self.pos].clone();
                self.pos = self.pos + 1;
                let seen = contains_text(&self.fetched_ids, &candidate);
                if !seen {
                    let id = candidate.clone();
                    self.pending = Some(candidate);
                    proof {
                        assert(self.frontier@[at]@ == id@);
                        if self.frontier@ == old(self).frontier@ {
                            assert(crate::builder::has_text(old(self).frontier@, id@));
                        } else {
                            assert(crate::builder::has_text(old(self).staged@, id@));
                        }
                    }
                    return Some(id);
                }
            } else {
                if self.staged.len() > 0 && (self.unlimited || self.hops_left > 0) {
                    if !self.unlimited {
                        self.hops_left = self.hops_left - 1;
                    }
                    let mut staged: Vec<String> = Vec::new();
                    core::mem::swap(&mut staged, &mut self.staged);
                    self.frontier = staged;
                    self.pos = 0;
                } else {
                    return None;
                }
            }
        }
    }

    /// Records a successful fetch of the pending identifier: the id joins
    /// the fetched set, and, while depth budget remains, every issuer id
    /// the certificate's certifications declare is staged for the next
    /// frontier.
    pub fn on_success(&mut self, cert: &RawCert)
        requires
            old(self).wf(),
            old(self).pending matches Some(p) && !crate::builder::has_text(
                old(self).fetched_ids@,
                p@,
            ),
        ensures
            final(self).wf(),
            final(self).pending is None,
            final(self).fetched_ids@.len() == old(self).fetched_ids@.len() + 1,
            forall|a: int|
                0 <= a < old(self).fetched_ids@.len() ==> final(self).fetched_ids@[a]
                    == old(self).fetched_ids@[a],
            (match old(self).pending {
                Some(p) => final(self).fetched_ids@.last()@ == p@,
                None => false,
            }),
            old(self).unlimited || old(self).hops_left > 0 ==> texts(final(self).staged@)
                == texts(old(self).staged@) + cert_issuers(cert.user_ids@),
            !(old(self).unlimited || old(self).hops_left > 0) ==> final(self).staged@ == old(
                self,
            ).staged@,
            final(self).frontier@ == old(self).frontier@,
            final(self).pos == old(self).pos,
            final(self).hops_left == old(self).hops_left,
            final(self).unlimited == old(self).unlimited,
    {
        let mut pending: Option<String> = None;
        core::mem::swap(&mut pending, &mut self.pending);
        let id = match pending {
            Some(p) => p,
            None => {
                proof {
                    assert(false);
                }
                String::new()
            },
        };
        let ghost gid = id@;
        self.fetched_ids.push(id);
        proof {
            assert forall|a: int, b: int|
                0 <= a < b < self.fetched_ids@.len() implies self.fetched_ids@[a]@
                != self.fetched_ids@[b]@ by {
                if b < old(self).fetched_ids@.len() {
                    assert(self.fetched_ids@[a] == old(self).fetched_ids@[a]);
                    assert(self.fetched_ids@[b] == old(self).fetched_ids@[b]);
                } else {
                    assert(self.fetched_ids@[a] == old(self).fetched_ids@[a]);
                    assert(self.fetched_ids@[b]@ == gid);
                    assert(!crate::builder::has_text(old(self).fetched_ids@, gid));
                }
            }
        }
        if self.unlimited || self.hops_left > 0 {
            let mut j: usize = 0;
            while j < cert.user_ids.len()
                invariant
                    0 <= j <= cert.user_ids@.len(),
                    self.wf(),
                    self.frontier@ == old(self).frontier@,
                    self.pos == old(self).pos,
                    self.hops_left == old(self).hops_left,
                    self.unlimited == old(self).unlimited,
                    texts(self.staged@) =~= texts(old(self).staged@) + cert_issuers(
                        cert.user_ids@.subrange(0, j as int),
                    ),
                    self.fetched_ids@ == old(self).fetched_ids@.push(
                        old(self).pending.unwrap(),
                    ),
                    self.pending is None,
                decreases cert.user_ids@.len() - j,
            {
                let uid = &cert.user_ids[j];
                let mut s: usize = 0;
                while s < uid.sigs.len()
                    invariant
                        0 <= s <= uid.sigs@.len(),
                        0 <= j < cert.user_ids@.len(),
                        self.wf(),
                        self.frontier@ == old(self).frontier@,
                        self.pos == old(self).pos,
                        self.hops_left == old(self).hops_left,
                        self.unlimited == old(self).unlimited,
                        uid == &cert.user_ids@[j as int],
                        texts(self.staged@) =~= texts(old(self).staged@) + cert_issuers(
                            cert.user_ids@.subrange(0, j as int),
                        ) + sig_issuers(uid.sigs@.subrange(0, s as int)),
                        self.fetched_ids@ == old(self).fetched_ids@.push(
                            old(self).pending.unwrap(),
                        ),
                        self.pending is None,
                    decreases uid.sigs@.len() - s,
                {
                    proof {
                        assert(uid.sigs@.subrange(0, s as int + 1).drop_last()
                            =~= uid.sigs@.subrange(0, s as int));
                        assert(uid.sigs@.subrange(0, s as int + 1).last() == uid.sigs@[s as int]);
                    }
                    let ghost pre_staged = self.staged@;
                    match &uid.sigs[s].issuer_fingerprint {
                        Some(f) => {
                            self.staged.push(f.clone());
                            proof {
                                assert(texts(self.staged@) =~= texts(pre_staged).push(f@));
                                assert(texts(self.staged@) =~= texts(old(self).staged@)
                                    + cert_issuers(cert.user_ids@.subrange(0, j as int))
                                    + sig_issuers(uid.sigs@.subrange(0, s as int + 1)));
                            }
                        },
                        None => {},
                    }
                    s = s + 1;
                }
                proof {
                    assert(uid.sigs@.subrange(0, uid.sigs@.len() as int) =~= uid.sigs@);
                    assert(cert.user_ids@.subrange(0, j as int + 1).drop_last()
                        =~= cert.user_ids@.subrange(0, j as int));
                    assert(cert.user_ids@.subrange(0, j as int + 1).last()
                        == cert.user_ids@[j as int]);
                    assert(texts(self.staged@) =~= texts(old(self).staged@) + cert_issuers(
                        cert.user_ids@.subrange(0, j as int + 1),
                    ));
                }
                j = j + 1;
            }
            proof {
                assert(cert.user_ids@.subrange(0, cert.user_ids@.len() as int)
                    =~= cert.user_ids@);
                assert(texts(self.staged@) =~= texts(old(self).staged@) + cert_issuers(
                    cert.user_ids@,
                ));
            }
        }
    }

    /// Records a failed fetch of the pending identifier: the failure is the
    /// caller's to log, and the walk simply continues.
    pub fn on_failure(&mut self)
        requires
            old(self).wf(),
        ensures
            final(self).wf(),
            final(self).pending is None,
            final(self).fetched_ids@ == old(self).fetched_ids@,
            final(self).staged@ == old(self).staged@,
            final(self).frontier@ == old(self).frontier@,
            final(self).pos == old(self).pos,
            final(self).hops_left == old(self).hops_left,
            final(self).unlimited == old(self).unlimited,
    {
        self.pending = None;
    }
}

/// The first certificate in `table` whose id is `id`.
fn find_cert(table: &Vec<RawCert>, id: &String) -> (r: Option<usize>)
    ensures
        match r {
            Some(t) => 0 <= t < table@.len() && table@[t as int].fingerprint@ == id@,
            None => forall|t: int| 0 <= t < table@.len() ==> table@[t].fingerprint@ != id@,
        },
{
    let mut t: usize = 0;
    while t < table.len()
        invariant
            0 <= t <= table@.len(),
            forall|a: int| 0 <= a < t ==> table@[a].fingerprint@ != id@,
        decreases table@.len() - t,
    {
        if table[t].fingerprint.eq(id) {
            return Some(t);
        }
        t = t + 1;
    }
    None
}

/// Whether the accumulated result already holds a certificate with id `id`.
fn already_fetched(table: &Vec<RawCert>, result: &Vec<usize>, id: &String) -> (r: bool)
    requires
        forall|i: int| 0 <= i < result@.len() ==> (#[trigger] result@[i]) < table@.len(),
    ensures
        r == fetched(table@, result@, id@),
{
    let mut i: usize = 0;
    while i < result.len()
        invariant
            0 <= i <= result@.len(),
            forall|a: int| 0 <= a < result@.len() ==> (#[trigger] result@[a]) < table@.len(),
            forall|a: int|
                0 <= a < i ==> table@[(#[trigger] result@[a]) as int].fingerprint@ != id@,
        decreases result@.len() - i,
    {
        if table[result[i]].fingerprint.eq(id) {
            return true;
        }
        i = i + 1;
    }
    false
}

/// A result whose fetched certificates have pairwise distinct ids holds at
/// most as many positions as the table has certificates.
proof fn lemma_distinct_bounded_fp(table: Seq<RawCert>, s: Seq<usize>)
    requires
        forall|a: int| 0 <= a < s.len() ==> (#[trigger] s[a]) < table.len(),
        forall|a: int, b: int|
            0 <= a < b < s.len() ==> table[s[a] as int].fingerprint@
                != table[s[b] as int].fingerprint@,
    ensures
        s.len() <= table.len(),
{
    let ints = s.map_values(|u: usize| u as int);
    assert(forall|a: int| 0 <= a < ints.len() ==> ints[a] == (#[trigger] s[a]) as int);
    assert forall|a: int, b: int| 0 <= a < b < ints.len() implies ints[a] != ints[b] by {
        assert(table[s[a] as int].fingerprint@ != table[s[b] as int].fingerprint@);
    }
    assert(ints.no_duplicates());
    ints.unique_seq_to_set();
    vstd::seq_lib::seq_to_set_is_finite(ints);
    assert(ints.to_set().subset_of(vstd::set_lib::set_int_range(0, table.len() as int))) by {
        assert forall|x: int| ints.to_set().contains(x) implies 0 <= x < table.len() by {
            let a = choose|a: int| 0 <= a < ints.len() && ints[a] == x;
            assert(s[a] < table.len());
        }
    }
    vstd::set_lib::lemma_int_range(0, table.len() as int);
    vstd::set_lib::lemma_len_subset(
        ints.to_set(),
        vstd::set_lib::set_int_range(0, table.len() as int),
    );
}

/// One frontier of the walk over a static table: every frontier id not yet
/// fetched whose certificate the table holds is fetched, and, when
/// `expand` is set, every issuer id a newly fetched certificate cites is
/// staged.
#[verifier::rlimit(100)]
fn gossip_round(
    table: &Vec<RawCert>,
    frontier: &Vec<String>,
    result: &mut Vec<usize>,
    staged: &mut Vec<String>,
    expand: bool,
)
    requires
        forall|i: int| 0 <= i < old(result)@.len() ==> (#[trigger] old(result)@[i]) < table@.len(),
        forall|a: int, b: int|
            0 <= a < b < old(result)@.len() ==> table@[old(result)@[a] as int].fingerprint@
                != table@[old(result)@[b] as int].fingerprint@,
    ensures
        forall|i: int| 0 <= i < final(result)@.len() ==> (#[trigger] final(result)@[i])
            < table@.len(),
        forall|a: int, b: int|
            0 <= a < b < final(result)@.len() ==> table@[final(result)@[a] as int].fingerprint@
                != table@[final(result)@[b] as int].fingerprint@,
        final(result)@.len() >= old(result)@.len(),
        forall|i: int| 0 <= i < old(result)@.len() ==> final(result)@[i] == old(result)@[i],
        final(staged)@.len() >= old(staged)@.len(),
        forall|x: int| 0 <= x < old(staged)@.len() ==> final(staged)@[x] == old(staged)@[x],
        final(staged)@.len() > old(staged)@.len() ==> final(result)@.len() > old(result)@.len(),
        forall|k: int|
            0 <= k < frontier@.len() && in_table(table@, (#[trigger] frontier@[k])@) ==> fetched(
                table@,
                final(result)@,
                frontier@[k]@,
            ),
        expand ==> forall|i: int, to: Seq<char>|
            old(result)@.len() <= i < final(result)@.len() && #[trigger] cites(
                table@,
                final(result)@[i] as int,
                to,
            ) ==> has_text(final(staged)@, to),
        forall|i: int|
            old(result)@.len() <= i < final(result)@.len() ==> has_text(
                frontier@,
                table@[(#[trigger] final(result)@[i]) as int].fingerprint@,
            ),
        forall|x: int|
            #![trigger final(staged)@[x]]
            old(staged)@.len() <= x < final(staged)@.len() ==> cited_by_new(
                table@,
                final(result)@,
                old(result)@.len() as int,
                (final(staged)@[x])@,
            ),
{
    let mut q: usize = 0;
    while q < frontier.len()
        invariant
            0 <= q <= frontier@.len(),
            forall|i: int| 0 <= i < result@.len() ==> (#[trigger] result@[i]) < table@.len(),
            forall|a: int, b: int|
                0 <= a < b < result@.len() ==> table@[result@[a] as int].fingerprint@
                    != table@[result@[b] as int].fingerprint@,
            result@.len() >= old(result)@.len(),
            forall|i: int| 0 <= i < old(result)@.len() ==> result@[i] == old(result)@[i],
            staged@.len() >= old(staged)@.len(),
            forall|x: int| 0 <= x < old(staged)@.len() ==> staged@[x] == old(staged)@[x],
            staged@.len() > old(staged)@.len() ==> result@.len() > old(result)@.len(),
            forall|k: int|
                0 <= k < q && in_table(table@, (#[trigger] frontier@[k])@) ==> fetched(
                    table@,
                    result@,
                    frontier@[k]@,
                ),
            expand ==> forall|i: int, to: Seq<char>|
                old(result)@.len() <= i < result@.len() && #[trigger] cites(
                    table@,
                    result@[i] as int,
                    to,
                ) ==> has_text(staged@, to),
            forall|i: int|
                old(result)@.len() <= i < result@.len() ==> has_text(
                    frontier@,
                    table@[(#[trigger] result@[i]) as int].fingerprint@,
                ),
            forall|x: int|
                #![trigger staged@[x]]
                old(staged)@.len() <= x < staged@.len() ==> cited_by_new(
                    table@,
                    result@,
                    old(result)@.len() as int,
                    (staged@[x])@,
                ),
        decreases frontier@.len() - q,
    {
        let id = &frontier[q];
        let ghost pre_result = result@;
        let ghost iter_staged = staged@;
        match find_cert(table, id) {
            Some(t) => {
                if !already_fetched(table, result, id) {
                    result.push(t);
                    proof {
                        assert(result@[result@.len() - 1] == t);
                        assert(table@[t as int].fingerprint@ == id@);
                    }
                    if expand {
                        let cert = &table[t];
                        let mut j: usize = 0;
                        while j < cert.user_ids.len()
                            invariant
                                0 <= j <= cert.user_ids@.len(),
                                0 <= t < table@.len(),
                                cert == &table@[t as int],
                                staged@.len() >= iter_staged.len(),
                                forall|x: int|
                                    0 <= x < iter_staged.len() ==> staged@[x] == iter_staged[x],
                                forall|x: int|
                                    iter_staged.len() <= x < staged@.len() ==> cites(
                                        table@,
                                        t as int,
                                        (#[trigger] staged@[x])@,
                                    ),
                                result@ == pre_result.push(t),
                                forall|j2: int, s2: int|
                                    #![trigger cert.user_ids@[j2].sigs@[s2]]
                                    0 <= j2 < j && 0 <= s2 < cert.user_ids@[j2].sigs@.len()
                                        ==> match cert.user_ids@[j2].sigs@[s2].issuer_fingerprint {
                                        Some(f) => has_text(staged@, f@),
                                        None => true,
                                    },
                            decreases cert.user_ids@.len() - j,
                        {
                            let uid = &cert.user_ids[j];
                            let mut si: usize = 0;
                            while si < uid.sigs.len()
                                invariant
                                    0 <= si <= uid.sigs@.len(),
                                    0 <= j < cert.user_ids@.len(),
                                    0 <= t < table@.len(),
                                    cert == &table@[t as int],
                                    uid == &cert.user_ids@[j as int],
                                    staged@.len() >= iter_staged.len(),
                                    forall|x: int|
                                        0 <= x < iter_staged.len() ==> staged@[x]
                                            == iter_staged[x],
                                    forall|x: int|
                                        iter_staged.len() <= x < staged@.len() ==> cites(
                                            table@,
                                            t as int,
                                            (#[trigger] staged@[x])@,
                                        ),
                                    result@ == pre_result.push(t),
                                    forall|j2: int, s2: int|
                                        #![trigger cert.user_ids@[j2].sigs@[s2]]
                                        0 <= j2 < j && 0 <= s2 < cert.user_ids@[j2].sigs@.len()
                                            ==> match cert.user_ids@[j2].sigs@[s2].issuer_fingerprint {
                                            Some(f) => has_text(staged@, f@),
                                            None => true,
                                        },
                                    forall|s2: int|
                                        #![trigger uid.sigs@[s2]]
                                        0 <= s2 < si ==> match uid.sigs@[s2].issuer_fingerprint {
                                            Some(f) => has_text(staged@, f@),
                                            None => true,
                                        },
                                decreases uid.sigs@.len() - si,
                            {
                                let ghost push_staged = staged@;
                                match &uid.sigs[si].issuer_fingerprint {
                                    Some(f) => {
                                        staged.push(f.clone());
                                        proof {
                                            assert(staged@[staged@.len() - 1]@ == f@);
                                            assert(uid.sigs@[si as int].issuer_fingerprint
                                                matches Some(f2) && f2@ == f@);
                                            assert(cites(table@, t as int, f@));
                                            assert forall|j2: int, s2: int|
                                                #![trigger cert.user_ids@[j2].sigs@[s2]]
                                                0 <= j2 < j && 0 <= s2
                                                    < cert.user_ids@[j2].sigs@.len() implies match
                                            cert.user_ids@[j2].sigs@[s2].issuer_fingerprint {
                                                Some(f2) => has_text(staged@, f2@),
                                                None => true,
                                            } by {
                                                match cert.user_ids@[j2].sigs@[s2].issuer_fingerprint {
                                                    Some(f2) => {
                                                        let w = choose|w: int|
                                                            0 <= w < push_staged.len() && (
                                                            #[trigger] push_staged[w])@ == f2@;
                                                        assert(staged@[w] == push_staged[w]);
                                                    },
                                                    None => {},
                                                }
                                            }
                                            assert forall|s2: int|
                                                #![trigger uid.sigs@[s2]]
                                                0 <= s2 < si + 1 implies match uid.sigs@[s2].issuer_fingerprint {
                                                Some(f2) => has_text(staged@, f2@),
                                                None => true,
                                            } by {
                                                if s2 < si {
                                                    match uid.sigs@[s2].issuer_fingerprint {
                                                        Some(f2) => {
                                                            let w = choose|w: int|
                                                                0 <= w < push_staged.len() && (
                                                                #[trigger] push_staged[w])@
                                                                    == f2@;
                                                            assert(staged@[w] == push_staged[w]);
                                                        },
                                                        None => {},
                                                    }
                                                }
                                            }
                                        }
                                    },
                                    None => {},
                                }
                                si = si + 1;
                            }
                            j = j + 1;
                        }
                        proof {
                            // Every issuer this certificate cites is now
                            // staged.
                            assert forall|i: int, to: Seq<char>|
                                pre_result.len() <= i < result@.len() && #[trigger] cites(
                                    table@,
                                    result@[i] as int,
                                    to,
                                ) implies has_text(staged@, to) by {
                                assert(result@[i] == t);
                                let (j2, s2): (int, int) = choose|j2: int, s2: int|
                                    0 <= j2 < table@[t as int].user_ids@.len() && 0 <= s2
                                        < table@[t as int].user_ids@[j2].sigs@.len() && match (
                                    #[trigger] table@[t as int].user_ids@[j2].sigs@[s2]).issuer_fingerprint {
                                        Some(f) => f@ == to,
                                        None => false,
                                    };
                                assert(cert.user_ids@[j2].sigs@[s2]
                                    == table@[t as int].user_ids@[j2].sigs@[s2]);
                            }
                            // Earlier fetches stay covered: the staged ids
                            // only grew.
                            assert forall|i: int, to: Seq<char>|
                                old(result)@.len() <= i < result@.len() && expand
                                    && #[trigger] cites(table@, result@[i] as int, to) implies
                            has_text(staged@, to) by {
                                if i < pre_result.len() {
                                    assert(result@[i] == pre_result[i]);
                                    assert(has_text(iter_staged, to));
                                    let w = choose|w: int|
                                        0 <= w < iter_staged.len() && (#[trigger] iter_staged[w])@
                                            == to;
                                    assert(staged@[w] == iter_staged[w]);
                                }
                            }
                            // Every id staged at this position was cited by
                            // the certificate fetched here.
                            assert forall|x: int|
                                #![trigger staged@[x]]
                                old(staged)@.len() <= x < staged@.len() implies cited_by_new(
                                table@,
                                result@,
                                old(result)@.len() as int,
                                (staged@[x])@,
                            ) by {
                                if x < iter_staged.len() {
                                    assert(staged@[x] == iter_staged[x]);
                                    assert(cited_by_new(
                                        table@,
                                        pre_result,
                                        old(result)@.len() as int,
                                        (iter_staged[x])@,
                                    ));
                                    let i0 = choose|i: int|
                                        old(result)@.len() <= i < pre_result.len()
                                            && #[trigger] cites(
                                            table@,
                                            pre_result[i] as int,
                                            (iter_staged[x])@,
                                        );
                                    assert(result@[i0] == pre_result[i0]);
                                    assert(cites(table@, result@[i0] as int, (staged@[x])@));
                                } else {
                                    assert(cites(table@, t as int, (staged@[x])@));
                                    assert(result@[result@.len() - 1] == t);
                                    assert(cites(
                                        table@,
                                        result@[result@.len() - 1] as int,
                                        (staged@[x])@,
                                    ));
                                }
                            }
                        }
                    } else {
                        proof {
                        assert forall|x: int|
                            #![trigger staged@[x]]
                            old(staged)@.len() <= x < staged@.len() implies cited_by_new(
                            table@,
                            result@,
                            old(result)@.len() as int,
                            (staged@[x])@,
                        ) by {
                            assert(cited_by_new(
                                table@,
                                pre_result,
                                old(result)@.len() as int,
                                (iter_staged[x])@,
                            ));
                            let i0 = choose|i: int|
                                old(result)@.len() <= i < pre_result.len() && #[trigger] cites(
                                    table@,
                                    pre_result[i] as int,
                                    (iter_staged[x])@,
                                );
                            assert(result@[i0] == pre_result[i0]);
                            assert(cites(table@, result@[i0] as int, (staged@[x])@));
                        }
                    }
                    }
                } else {
                    proof {
                        assert forall|x: int|
                            #![trigger staged@[x]]
                            old(staged)@.len() <= x < staged@.len() implies cited_by_new(
                            table@,
                            result@,
                            old(result)@.len() as int,
                            (staged@[x])@,
                        ) by {
                            assert(cited_by_new(
                                table@,
                                pre_result,
                                old(result)@.len() as int,
                                (iter_staged[x])@,
                            ));
                            let i0 = choose|i: int|
                                old(result)@.len() <= i < pre_result.len() && #[trigger] cites(
                                    table@,
                                    pre_result[i] as int,
                                    (iter_staged[x])@,
                                );
                            assert(result@[i0] == pre_result[i0]);
                            assert(cites(table@, result@[i0] as int, (staged@[x])@));
                        }
                    }
                }
            },
            None => {
                proof {
                assert forall|x: int|
                    #![trigger staged@[x]]
                    old(staged)@.len() <= x < staged@.len() implies cited_by_new(
                    table@,
                    result@,
                    old(result)@.len() as int,
                    (staged@[x])@,
                ) by {
                    assert(cited_by_new(
                        table@,
                        pre_result,
                        old(result)@.len() as int,
                        (iter_staged[x])@,
                    ));
                    let i0 = choose|i: int|
                        old(result)@.len() <= i < pre_result.len() && #[trigger] cites(
                            table@,
                            pre_result[i] as int,
                            (iter_staged[x])@,
                        );
                    assert(result@[i0] == pre_result[i0]);
                    assert(cites(table@, result@[i0] as int, (staged@[x])@));
                }
            }
            },
        }
        proof {
            assert forall|k: int|
                0 <= k < q + 1 && in_table(table@, (#[trigger] frontier@[k])@) implies fetched(
                table@,
                result@,
                frontier@[k]@,
            ) by {
                if k < q {
                    let w = choose|i: int|
                        0 <= i < pre_result.len() && table@[(#[trigger] pre_result[i]) as int].fingerprint@
                            == frontier@[k]@;
                    assert(result@[w] == pre_result[w]);
                    assert(fetched(table@, result@, frontier@[k]@));
                } else {
                    if fetched(table@, pre_result, id@) {
                        let w = choose|i: int|
                            0 <= i < pre_result.len() && table@[(#[trigger] pre_result[i]) as int].fingerprint@
                                == id@;
                        assert(result@[w] == pre_result[w]);
                        assert(fetched(table@, result@, id@));
                    } else {
                        assert(fetched(table@, result@, id@));
                    }
                }
            }
            // When nothing was fetched at this position, the staged ids and
            // the coverage of earlier fetches are untouched.
            assert forall|i: int, to: Seq<char>|
                old(result)@.len() <= i < result@.len() && expand && #[trigger] cites(
                    table@,
                    result@[i] as int,
                    to,
                ) implies has_text(staged@, to) by {
                if i < pre_result.len() && staged@ == iter_staged {
                    assert(result@[i] == pre_result[i]);
                }
            }
            // Every fetch at this position came from the frontier.
            assert forall|i: int|
                old(result)@.len() <= i < result@.len() implies has_text(
                frontier@,
                table@[(#[trigger] result@[i]) as int].fingerprint@,
            ) by {
                if i < pre_result.len() {
                    assert(result@[i] == pre_result[i]);
                } else {
                    assert(table@[result@[i] as int].fingerprint@ == frontier@[q as int]@);
                }
            }
        }
        q = q + 1;
    }
}

/// The gossip walk against a static table of certificates: the seeds are
/// fetched first, then, frontier by frontier, the issuer ids of what was
/// fetched, until the frontier is empty or `depth` hops have been taken.
/// A `depth` of 0 means unlimited depth: every certificate the table holds
/// for an id cited by a fetched certificate is then fetched too, to any
/// distance. With a positive depth, the certificates cited by the fetched
/// seed certificates are fetched (the first hop), and nothing farther than
/// `depth` issuer-hops from the seeds is ever fetched; no certificate is
/// fetched twice. The result holds the positions of the fetched
/// certificates, in fetch order.
#[verifier::rlimit(100)]
pub fn gossip_fetch(table: &Vec<RawCert>, seeds: &Vec<String>, depth: u8) -> (r: Vec<usize>)
    ensures
        forall|i: int| 0 <= i < r@.len() ==> (#[trigger] r@[i]) < table@.len(),
        forall|a: int, b: int|
            0 <= a < b < r@.len() ==> table@[r@[a] as int].fingerprint@
                != table@[r@[b] as int].fingerprint@,
        forall|k: int|
            0 <= k < seeds@.len() && in_table(table@, (#[trigger] seeds@[k])@) ==> fetched(
                table@,
                r@,
                seeds@[k]@,
            ),
        depth == 0 ==> forall|i: int, to: Seq<char>|
            0 <= i < r@.len() && #[trigger] cites(table@, r@[i] as int, to) && in_table(
                table@,
                to,
            ) ==> fetched(table@, r@, to),
        depth >= 1 ==> forall|k: int, i: int, to: Seq<char>|
            #![trigger seeds@[k], cites(table@, r@[i] as int, to)]
            0 <= k < seeds@.len() && 0 <= i < r@.len() && table@[r@[i] as int].fingerprint@
                == seeds@[k]@ && cites(table@, r@[i] as int, to) && in_table(table@, to)
                ==> fetched(table@, r@, to),
        depth >= 1 ==> forall|i: int|
            0 <= i < r@.len() ==> within_hops(
                table@,
                seeds@,
                table@[(#[trigger] r@[i]) as int].fingerprint@,
                depth as nat,
            ),
{
    let unlimited = depth == 0;
    let mut hops_left = depth;
    let mut result: Vec<usize> = Vec::new();
    let mut staged: Vec<String> = Vec::new();
    gossip_round(table, seeds, &mut result, &mut staged, unlimited || hops_left > 0);
    let ghost r0 = result@;
    let ghost staged0 = staged@;
    let ghost mut first_done: bool = false;
    let ghost mut rounds: int = 0;
    proof {
        lemma_distinct_bounded_fp(table@, result@);
        // The seed round fetched only seeds: everything is within 0 hops.
        assert forall|i: int| 0 <= i < result@.len() implies within_hops(
            table@,
            seeds@,
            table@[(#[trigger] result@[i]) as int].fingerprint@,
            rounds as nat,
        ) by {
            assert(has_text(seeds@, table@[result@[i] as int].fingerprint@));
        }
    }
    while staged.len() > 0 && (unlimited || hops_left > 0)
        invariant
            result@.len() <= table@.len(),
            forall|i: int| 0 <= i < result@.len() ==> (#[trigger] result@[i]) < table@.len(),
            forall|a: int, b: int|
                0 <= a < b < result@.len() ==> table@[result@[a] as int].fingerprint@
                    != table@[result@[b] as int].fingerprint@,
            forall|k: int|
                0 <= k < seeds@.len() && in_table(table@, (#[trigger] seeds@[k])@) ==> fetched(
                    table@,
                    result@,
                    seeds@[k]@,
                ),
            r0.len() <= result@.len(),
            forall|i: int| 0 <= i < r0.len() ==> result@[i] == r0[i],
            forall|k: int|
                0 <= k < seeds@.len() && in_table(table@, (#[trigger] seeds@[k])@) ==> fetched(
                    table@,
                    r0,
                    seeds@[k]@,
                ),
            forall|i: int, to: Seq<char>|
                0 <= i < r0.len() && #[trigger] cites(table@, r0[i] as int, to) ==> has_text(
                    staged0,
                    to,
                ),
            !first_done ==> staged@ == staged0 && result@ == r0 && hops_left == depth,
            first_done ==> forall|q: int|
                0 <= q < staged0.len() && in_table(table@, (#[trigger] staged0[q])@) ==> fetched(
                    table@,
                    result@,
                    staged0[q]@,
                ),
            unlimited ==> forall|i: int, to: Seq<char>|
                0 <= i < result@.len() && #[trigger] cites(table@, result@[i] as int, to)
                    && in_table(table@, to) ==> fetched(table@, result@, to) || has_text(
                    staged@,
                    to,
                ),
            rounds >= 0,
            !unlimited ==> rounds == depth - hops_left,
            forall|i: int|
                0 <= i < result@.len() ==> within_hops(
                    table@,
                    seeds@,
                    table@[(#[trigger] result@[i]) as int].fingerprint@,
                    rounds as nat,
                ),
            forall|x: int|
                #![trigger staged@[x]]
                0 <= x < staged@.len() ==> cited_by_new(table@, result@, 0, (staged@[x])@),
        ensures
            staged@.len() == 0 || !(unlimited || hops_left > 0),
        decreases table@.len() - result@.len(),
    {
        let mut frontier: Vec<String> = Vec::new();
        core::mem::swap(&mut frontier, &mut staged);
        if !unlimited {
            hops_left = hops_left - 1;
        }
        let ghost pre_result = result@;
        gossip_round(table, &frontier, &mut result, &mut staged, unlimited || hops_left > 0);
        proof {
            lemma_distinct_bounded_fp(table@, result@);
            assert forall|k: int|
                0 <= k < seeds@.len() && in_table(table@, (#[trigger] seeds@[k])@) implies
            fetched(table@, result@, seeds@[k]@) by {
                let w = choose|i: int|
                    0 <= i < pre_result.len() && table@[(#[trigger] pre_result[i]) as int].fingerprint@
                        == seeds@[k]@;
                assert(result@[w] == pre_result[w]);
            }
            if !first_done {
                // The first round past the seeds works through exactly the
                // ids the seed certificates cited.
                assert forall|q: int|
                    0 <= q < staged0.len() && in_table(table@, (#[trigger] staged0[q])@) implies
                fetched(table@, result@, staged0[q]@) by {
                    assert(frontier@[q] == staged0[q]);
                    assert(fetched(table@, result@, frontier@[q]@));
                }
                first_done = true;
            } else {
                assert forall|q: int|
                    0 <= q < staged0.len() && in_table(table@, (#[trigger] staged0[q])@) implies
                fetched(table@, result@, staged0[q]@) by {
                    let w = choose|i: int|
                        0 <= i < pre_result.len() && table@[(#[trigger] pre_result[i]) as int].fingerprint@
                            == staged0[q]@;
                    assert(result@[w] == pre_result[w]);
                }
            }
            rounds = rounds + 1;
            // Everything fetched this round was cited by an earlier fetch,
            // so it lies one hop deeper; everything staged was cited by a
            // certificate fetched this round.
            assert forall|i: int| 0 <= i < result@.len() implies within_hops(
                table@,
                seeds@,
                table@[(#[trigger] result@[i]) as int].fingerprint@,
                rounds as nat,
            ) by {
                if i < pre_result.len() {
                    assert(result@[i] == pre_result[i]);
                    lemma_within_hops_mono(
                        table@,
                        seeds@,
                        table@[result@[i] as int].fingerprint@,
                        (rounds - 1) as nat,
                        rounds as nat,
                    );
                } else {
                    let fp = table@[result@[i] as int].fingerprint@;
                    assert(has_text(frontier@, fp));
                    let x = choose|x: int|
                        0 <= x < frontier@.len() && (#[trigger] frontier@[x])@ == fp;
                    assert(cited_by_new(table@, pre_result, 0, (frontier@[x])@));
                    let c = choose|c: int|
                        0 <= c < pre_result.len() && #[trigger] cites(
                            table@,
                            pre_result[c] as int,
                            (frontier@[x])@,
                        );
                    assert(result@[c] == pre_result[c]);
                    assert(within_hops(
                        table@,
                        seeds@,
                        table@[pre_result[c] as int].fingerprint@,
                        (rounds - 1) as nat,
                    ));
                    assert(0 <= pre_result[c] < table@.len() && within_hops(
                        table@,
                        seeds@,
                        table@[pre_result[c] as int].fingerprint@,
                        (rounds - 1) as nat,
                    ) && cites(table@, pre_result[c] as int, fp));
                }
            }
            assert forall|x: int| #![trigger staged@[x]] 0 <= x < staged@.len() implies
            cited_by_new(table@, result@, 0, (staged@[x])@) by {
                assert(cited_by_new(table@, result@, pre_result.len() as int, (staged@[x])@));
                let c = choose|c: int|
                    pre_result.len() <= c < result@.len() && #[trigger] cites(
                        table@,
                        result@[c] as int,
                        (staged@[x])@,
                    );
                assert(0 <= c < result@.len() && cites(table@, result@[c] as int, (staged@[x])@));
            }
            if unlimited {
                // Every citation of every fetched certificate is fetched or
                // still staged.
                assert forall|i: int, to: Seq<char>|
                    0 <= i < result@.len() && #[trigger] cites(table@, result@[i] as int, to)
                        && in_table(table@, to) implies fetched(table@, result@, to) || has_text(
                    staged@,
                    to,
                ) by {
                    if i < pre_result.len() {
                        assert(result@[i] == pre_result[i]);
                        if fetched(table@, pre_result, to) {
                            let w = choose|w: int|
                                0 <= w < pre_result.len() && table@[(#[trigger] pre_result[w]) as int].fingerprint@
                                    == to;
                            assert(result@[w] == pre_result[w]);
                        } else {
                            assert(has_text(frontier@, to));
                            let q = choose|q: int|
                                0 <= q < frontier@.len() && (#[trigger] frontier@[q])@ == to;
                            assert(fetched(table@, result@, frontier@[q]@));
                        }
                    }
                }
            }
        }
        if staged.len() == 0 {
            break ;
        }
    }
    proof {
        if depth == 0 {
            // Unlimited depth never exhausts the budget, so the walk ended
            // with nothing staged: the closure is complete.
            assert(staged@.len() == 0);
            assert forall|i: int, to: Seq<char>|
                0 <= i < result@.len() && #[trigger] cites(table@, result@[i] as int, to)
                    && in_table(table@, to) implies fetched(table@, result@, to) by {
                assert(!has_text(staged@, to));
            }
        }
        if depth >= 1 {
            // Nothing was fetched farther than `depth` hops: each round
            // consumed one hop of the budget.
            assert forall|i: int| 0 <= i < result@.len() implies within_hops(
                table@,
                seeds@,
                table@[(#[trigger] result@[i]) as int].fingerprint@,
                depth as nat,
            ) by {
                lemma_within_hops_mono(
                    table@,
                    seeds@,
                    table@[result@[i] as int].fingerprint@,
                    rounds as nat,
                    depth as nat,
                );
            }
            // A fetched certificate with a seed's id was fetched in the
            // seeds round, so its citations were staged and the first hop
            // worked through them.
            assert forall|k: int, i: int, to: Seq<char>|
                #![trigger seeds@[k], cites(table@, result@[i] as int, to)]
                0 <= k < seeds@.len() && 0 <= i < result@.len()
                    && table@[result@[i] as int].fingerprint@ == seeds@[k]@ && cites(
                    table@,
                    result@[i] as int,
                    to,
                ) && in_table(table@, to) implies fetched(table@, result@, to) by {
                assert(in_table(table@, seeds@[k]@));
                assert(fetched(table@, r0, seeds@[k]@));
                let w = choose|w: int|
                    0 <= w < r0.len() && table@[(#[trigger] r0[w]) as int].fingerprint@
                        == seeds@[k]@;
                assert(result@[w] == r0[w]);
                if i != w {
                    if i < w {
                        assert(table@[result@[i] as int].fingerprint@
                            != table@[result@[w] as int].fingerprint@);
                    } else {
                        assert(table@[result@[w] as int].fingerprint@
                            != table@[result@[i] as int].fingerprint@);
                    }
                    assert(false);
                }
                assert(cites(table@, r0[i] as int, to));
                assert(has_text(staged0, to));
                if first_done {
                    let q = choose|q: int|
                        0 <= q < staged0.len() && (#[trigger] staged0[q])@ == to;
                    assert(fetched(table@, result@, staged0[q]@));
                } else {
                    assert(staged@ == staged0 && hops_left == depth);
                    assert(staged0.len() == 0);
                    assert(false);
                }
            }
        }
    }
    result
}

/// Fetch termination: the walk never fetches a certificate twice, so the
/// result is bounded by the finite table. Each successful fetch strictly
/// grows the fetched set (`GossipFetcher::on_success`); this bound is the
/// measure the walk's loops strictly decrease.
pub proof fn lemma_fetch_termination_bound(table: Seq<RawCert>, result: Seq<usize>)
    requires
        forall|i: int| 0 <= i < result.len() ==> (#[trigger] result[i]) < table.len(),
        forall|a: int, b: int|
            0 <= a < b < result.len() ==> table[result[a] as int].fingerprint@
                != table[result[b] as int].fingerprint@,
    ensures
        result.len() <= table.len(),
{
    lemma_distinct_bounded_fp(table, result);
}

} // verus!
