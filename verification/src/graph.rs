//! The graph builder: projects the (possibly depth-filtered) model into a
//! directed multigraph of identity vertices and certification edges, applying
//! the display filters. The graph itself is petgraph's adjacency-list graph;
//! what this module states about it is proved against the contracts of the
//! trusted wrappers below, each of which leans on petgraph's source.
use vstd::prelude::*;

use crate::model::{has_uid, GraphEdgeSig, GraphNodeUid, KeySet, OpenPgpKey, OpenPgpSig};

verus! {

#[verifier::external_type_specification]
#[verifier::external_body]
#[verifier::reject_recursive_types(N)]
#[verifier::reject_recursive_types(E)]
#[verifier::reject_recursive_types(Ty)]
#[verifier::reject_recursive_types(Ix)]
pub struct ExGraph<N, E, Ty, Ix>(petgraph::graph::Graph<N, E, Ty, Ix>);

#[verifier::external_type_specification]
#[verifier::external_body]
pub struct ExDirected(petgraph::Directed);

/// The rendered trust graph: identity vertices, certification edges.
pub type TrustGraph = petgraph::graph::Graph<GraphNodeUid, GraphEdgeSig, petgraph::Directed, u32>;

/// The vertices the graph holds, in insertion order: petgraph's `Graph`
/// stores its nodes in a plain vector.
pub uninterp spec fn graph_nodes(g: TrustGraph) -> Seq<GraphNodeUid>;

/// The edges the graph holds, in insertion order, each as the pair of
/// endpoint vertex positions with the edge's payload.
pub uninterp spec fn graph_edges(g: TrustGraph) -> Seq<(usize, usize, GraphEdgeSig)>;

/// Relies on petgraph's `Graph::new`: a new graph has no nodes and no
/// edges.
#[verifier::external_body]
fn graph_new() -> (g: TrustGraph)
    ensures
        graph_nodes(g) == Seq::<GraphNodeUid>::empty(),
        graph_edges(g) == Seq::<(usize, usize, GraphEdgeSig)>::empty(),
{
    petgraph::graph::Graph::new()
}

/// Relies on petgraph's `Graph::add_node`: the node is appended to the
/// node vector and its position returned. It panics only when the graph is
/// at the index type's maximum number of nodes.
#[verifier::external_body]
fn graph_add_node(g: &mut TrustGraph, w: GraphNodeUid) -> (ix: usize)
    requires
        graph_nodes(*old(g)).len() < 0xFFFF_FFFF,
    ensures
        graph_nodes(*final(g)) == graph_nodes(*old(g)).push(w),
        graph_edges(*final(g)) == graph_edges(*old(g)),
        ix == graph_nodes(*old(g)).len(),
{
    g.add_node(w).index()
}

/// Relies on petgraph's `Graph::add_edge`: the edge is appended to the
/// edge vector with the given endpoints; parallel edges are allowed. It
/// panics only when an endpoint does not exist or the graph is at the index
/// type's maximum number of edges.
#[verifier::external_body]
fn graph_add_edge(g: &mut TrustGraph, a: usize, b: usize, w: GraphEdgeSig)
    requires
        a < graph_nodes(*old(g)).len(),
        b < graph_nodes(*old(g)).len(),
        graph_edges(*old(g)).len() < 0xFFFF_FFFF,
    ensures
        graph_nodes(*final(g)) == graph_nodes(*old(g)),
        graph_edges(*final(g)) == graph_edges(*old(g)).push((a, b, w)),
{
    g.add_edge(
        petgraph::graph::NodeIndex::new(a),
        petgraph::graph::NodeIndex::new(b),
        w,
    );
}

/// Relies on petgraph's `Graph::node_count`: the length of the node
/// vector.
#[verifier::external_body]
pub fn graph_node_count(g: &TrustGraph) -> (n: usize)
    ensures
        n == graph_nodes(*g).len(),
{
    g.node_count()
}

/// Relies on petgraph's `Graph::node_weight`: the node stored at the given
/// position.
#[verifier::external_body]
pub fn graph_node_get(g: &TrustGraph, i: usize) -> (w: &GraphNodeUid)
    requires
        i < graph_nodes(*g).len(),
    ensures
        *w == graph_nodes(*g)[i as int],
{
    g.node_weight(petgraph::graph::NodeIndex::new(i)).unwrap()
}

/// Relies on petgraph's `Graph::edge_count`: the length of the edge
/// vector.
#[verifier::external_body]
pub fn graph_edge_count(g: &TrustGraph) -> (n: usize)
    ensures
        n == graph_edges(*g).len(),
{
    g.edge_count()
}

/// Relies on petgraph's `Graph::edge_endpoints` and `Graph::edge_weight`:
/// the endpoints and payload of the edge stored at the given position.
#[verifier::external_body]
pub fn graph_edge_get(g: &TrustGraph, i: usize) -> (e: (usize, usize, GraphEdgeSig))
    requires
        i < graph_edges(*g).len(),
    ensures
        e == graph_edges(*g)[i as int],
{
    let ix = petgraph::graph::EdgeIndex::new(i);
    let (a, b) = g.edge_endpoints(ix).unwrap();
    (a.index(), b.index(), *g.edge_weight(ix).unwrap())
}

/// The number of identities over all keys.
pub open spec fn total_uids(keys: Seq<OpenPgpKey>) -> nat
    decreases keys.len(),
{
    if keys.len() == 0 {
        0
    } else {
        total_uids(keys.drop_last()) + keys.last().user_ids@.len()
    }
}

/// The number of certifications over a key's identities.
pub open spec fn uids_sigs(uids: Seq<crate::model::OpenPgpUid>) -> nat
    decreases uids.len(),
{
    if uids.len() == 0 {
        0
    } else {
        uids_sigs(uids.drop_last()) + uids.last().sig_vec@.len()
    }
}

/// The number of certifications over all keys.
pub open spec fn total_sigs(keys: Seq<OpenPgpKey>) -> nat
    decreases keys.len(),
{
    if keys.len() == 0 {
        0
    } else {
        total_sigs(keys.drop_last()) + uids_sigs(keys.last().user_ids@)
    }
}

/// One more key adds exactly its identity count to the prefix total.
proof fn lemma_total_uids_step(keys: Seq<OpenPgpKey>, i: int)
    requires
        0 <= i < keys.len(),
    ensures
        total_uids(keys.subrange(0, i + 1)) == total_uids(keys.subrange(0, i))
            + keys[i].user_ids@.len(),
{
    assert(keys.subrange(0, i + 1).drop_last() =~= keys.subrange(0, i));
    assert(keys.subrange(0, i + 1).last() == keys[i]);
}

/// A prefix never holds more identities than the whole.
proof fn lemma_total_uids_mono(keys: Seq<OpenPgpKey>, i: int)
    requires
        0 <= i <= keys.len(),
    ensures
        total_uids(keys.subrange(0, i)) <= total_uids(keys),
    decreases keys.len() - i,
{
    if i == keys.len() {
        assert(keys.subrange(0, i) =~= keys);
    } else {
        lemma_total_uids_step(keys, i);
        lemma_total_uids_mono(keys, i + 1);
    }
}

/// One more key adds exactly its certification count to the prefix total.
proof fn lemma_total_sigs_step(keys: Seq<OpenPgpKey>, i: int)
    requires
        0 <= i < keys.len(),
    ensures
        total_sigs(keys.subrange(0, i + 1)) == total_sigs(keys.subrange(0, i)) + uids_sigs(
            keys[i].user_ids@,
        ),
{
    assert(keys.subrange(0, i + 1).drop_last() =~= keys.subrange(0, i));
    assert(keys.subrange(0, i + 1).last() == keys[i]);
}

/// A prefix never holds more certifications than the whole.
proof fn lemma_total_sigs_mono(keys: Seq<OpenPgpKey>, i: int)
    requires
        0 <= i <= keys.len(),
    ensures
        total_sigs(keys.subrange(0, i)) <= total_sigs(keys),
    decreases keys.len() - i,
{
    if i == keys.len() {
        assert(keys.subrange(0, i) =~= keys);
    } else {
        lemma_total_sigs_step(keys, i);
        lemma_total_sigs_mono(keys, i + 1);
    }
}

/// One more identity adds exactly its certification count to the prefix
/// total.
proof fn lemma_uids_sigs_step(uids: Seq<crate::model::OpenPgpUid>, j: int)
    requires
        0 <= j < uids.len(),
    ensures
        uids_sigs(uids.subrange(0, j + 1)) == uids_sigs(uids.subrange(0, j))
            + uids[j].sig_vec@.len(),
{
    assert(uids.subrange(0, j + 1).drop_last() =~= uids.subrange(0, j));
    assert(uids.subrange(0, j + 1).last() == uids[j]);
}

/// A prefix never holds more certifications than all of a key's
/// identities.
proof fn lemma_uids_sigs_mono(uids: Seq<crate::model::OpenPgpUid>, j: int)
    requires
        0 <= j <= uids.len(),
    ensures
        uids_sigs(uids.subrange(0, j)) <= uids_sigs(uids),
    decreases uids.len() - j,
{
    if j == uids.len() {
        assert(uids.subrange(0, j) =~= uids);
    } else {
        lemma_uids_sigs_step(uids, j);
        lemma_uids_sigs_mono(uids, j + 1);
    }
}

/// Whether the vertices hold the pair (`fp`, `uid`).
pub open spec fn has_node(nodes: Seq<GraphNodeUid>, fp: Seq<char>, uid: Seq<char>) -> bool {
    exists|v: int|
        0 <= v < nodes.len() && (#[trigger] nodes[v]).fingerprint@ == fp && nodes[v].uid@ == uid
}

/// Whether the identity at (`i`, `j`) gets a vertex under the primary-only
/// filter.
pub open spec fn uid_shown(model: Seq<OpenPgpKey>, i: int, j: int, primary_only: bool) -> bool {
    &&& 0 <= i < model.len()
    &&& 0 <= j < model[i].user_ids@.len()
    &&& (primary_only ==> model[i].user_ids@[j].is_primary)
}

/// Whether a vertex stands for some shown identity of the model.
pub open spec fn node_matches(
    model: Seq<OpenPgpKey>,
    v: GraphNodeUid,
    primary_only: bool,
) -> bool {
    exists|i: int, j: int|
        uid_shown(model, i, j, primary_only) && (#[trigger] model[i].user_ids@[j]).uid@ == v.uid@
            && model[i].id@ == v.fingerprint@
}

/// What a certification contributes to its edge.
pub open spec fn edge_payload(sig: OpenPgpSig) -> GraphEdgeSig {
    GraphEdgeSig {
        trust_level: sig.trust_level,
        trust_value: sig.trust_value,
        sig_type: sig.sig_type,
        creation_time: sig.creation_time,
    }
}

/// Whether the key at `ik` is the issuer named `fp` and has an identity for
/// its declared primary identity text: only then can the edge's source
/// vertex be resolved.
pub open spec fn issuer_resolves(model: Seq<OpenPgpKey>, fp: Seq<char>, ik: int) -> bool {
    &&& 0 <= ik < model.len()
    &&& model[ik].id@ == fp
    &&& has_uid(model[ik].user_ids@, model[ik].primary_user_id@)
}

/// Whether an edge is justified: it runs from the issuer key's primary
/// identity vertex to a shown identity vertex, carries that certification's
/// payload, and respects the self-signature filter.
pub open spec fn edge_matches(
    model: Seq<OpenPgpKey>,
    nodes: Seq<GraphNodeUid>,
    e: (usize, usize, GraphEdgeSig),
    primary_only: bool,
    show_self_sigs: bool,
) -> bool {
    &&& (e.0 as int) < nodes.len()
    &&& (e.1 as int) < nodes.len()
    &&& exists|i: int, j: int, si: int, ik: int|
        #![trigger model[i].user_ids@[j].sig_vec@[si], model[ik]]
        {
            &&& uid_shown(model, i, j, primary_only)
            &&& 0 <= si < model[i].user_ids@[j].sig_vec@.len()
            &&& nodes[e.1 as int].fingerprint@ == model[i].id@
            &&& nodes[e.1 as int].uid@ == model[i].user_ids@[j].uid@
            &&& e.2 == edge_payload(model[i].user_ids@[j].sig_vec@[si])
            &&& issuer_resolves(model, model[i].user_ids@[j].sig_vec@[si].fingerprint@, ik)
            &&& nodes[e.0 as int].fingerprint@ == model[ik].id@
            &&& nodes[e.0 as int].uid@ == model[ik].primary_user_id@
            &&& (!show_self_sigs ==> model[ik].primary_user_id@ != model[i].user_ids@[j].uid@)
        }
}

/// Whether the edges hold an edge with the given endpoint pairs and
/// payload.
pub open spec fn has_edge(
    nodes: Seq<GraphNodeUid>,
    edges: Seq<(usize, usize, GraphEdgeSig)>,
    from_fp: Seq<char>,
    from_uid: Seq<char>,
    to_fp: Seq<char>,
    to_uid: Seq<char>,
    payload: GraphEdgeSig,
) -> bool {
    exists|e: int|
        {
            &&& 0 <= e < edges.len()
            &&& ((#[trigger] edges[e]).0 as int) < nodes.len()
            &&& (edges[e].1 as int) < nodes.len()
            &&& nodes[edges[e].0 as int].fingerprint@ == from_fp
            &&& nodes[edges[e].0 as int].uid@ == from_uid
            &&& nodes[edges[e].1 as int].fingerprint@ == to_fp
            &&& nodes[edges[e].1 as int].uid@ == to_uid
            &&& edges[e].2 == payload
        }
}

/// Whether the vertices are exactly the shown identities: every vertex
/// stands for one, every shown identity has one, and no pair appears
/// twice.
pub open spec fn nodes_ok(
    model: Seq<OpenPgpKey>,
    nodes: Seq<GraphNodeUid>,
    primary_only: bool,
) -> bool {
    &&& forall|v: int|
        0 <= v < nodes.len() ==> node_matches(model, #[trigger] nodes[v], primary_only)
    &&& forall|i: int, j: int|
        uid_shown(model, i, j, primary_only) ==> has_node(
            nodes,
            model[i].id@,
            (#[trigger] model[i].user_ids@[j]).uid@,
        )
    &&& forall|a: int, b: int|
        0 <= a < b < nodes.len() ==> !(nodes[a].fingerprint@ == nodes[b].fingerprint@
            && nodes[a].uid@ == nodes[b].uid@)
}

/// Whether every edge present is justified.
pub open spec fn edges_sound(
    model: Seq<OpenPgpKey>,
    nodes: Seq<GraphNodeUid>,
    edges: Seq<(usize, usize, GraphEdgeSig)>,
    primary_only: bool,
    show_self_sigs: bool,
) -> bool {
    forall|e: int|
        0 <= e < edges.len() ==> edge_matches(
            model,
            nodes,
            #[trigger] edges[e],
            primary_only,
            show_self_sigs,
        )
}

/// Whether the certification at (`ki`, `ji`, `si`) comes before position
/// (`i`, `j`, `s`) in the pass over the model.
pub open spec fn before_pos(ki: int, ji: int, si: int, i: int, j: int, s: int) -> bool {
    ||| ki < i
    ||| (ki == i && ji < j)
    ||| (ki == i && ji == j && si < s)
}

/// Whether every certification before position (`i`, `j`, `s`) whose target
/// is shown, whose issuer resolves, and which the self-signature filter
/// admits, already has its edge.
pub open spec fn edges_complete_upto(
    model: Seq<OpenPgpKey>,
    nodes: Seq<GraphNodeUid>,
    edges: Seq<(usize, usize, GraphEdgeSig)>,
    primary_only: bool,
    show_self_sigs: bool,
    i: int,
    j: int,
    s: int,
) -> bool {
    forall|ki: int, ji: int, si: int, ik: int|
        #![trigger model[ki].user_ids@[ji].sig_vec@[si], model[ik]]
        {
            &&& uid_shown(model, ki, ji, primary_only)
            &&& 0 <= si < model[ki].user_ids@[ji].sig_vec@.len()
            &&& before_pos(ki, ji, si, i, j, s)
            &&& issuer_resolves(model, model[ki].user_ids@[ji].sig_vec@[si].fingerprint@, ik)
            &&& (show_self_sigs || model[ik].primary_user_id@ != model[ki].user_ids@[ji].uid@)
        } ==> has_edge(
            nodes,
            edges,
            model[ik].id@,
            model[ik].primary_user_id@,
            model[ki].id@,
            model[ki].user_ids@[ji].uid@,
            edge_payload(model[ki].user_ids@[ji].sig_vec@[si]),
        )
}

/// What the graph builder promises: the vertices are exactly the shown
/// identities, every edge is justified, and every admissible certification
/// has its edge.
pub open spec fn graph_matches(
    model: Seq<OpenPgpKey>,
    nodes: Seq<GraphNodeUid>,
    edges: Seq<(usize, usize, GraphEdgeSig)>,
    primary_only: bool,
    show_self_sigs: bool,
) -> bool {
    &&& nodes_ok(model, nodes, primary_only)
    &&& edges_sound(model, nodes, edges, primary_only, show_self_sigs)
    &&& edges_complete_upto(
        model,
        nodes,
        edges,
        primary_only,
        show_self_sigs,
        model.len() as int,
        0,
        0,
    )
}

/// The position of the vertex for (`fp`, `uid`), if the graph has one.
fn find_vertex(g: &TrustGraph, fp: &String, uid: &String) -> (r: Option<usize>)
    ensures
        match r {
            Some(v) => {
                &&& (v as int) < graph_nodes(*g).len()
                &&& graph_nodes(*g)[v as int].fingerprint@ == fp@
                &&& graph_nodes(*g)[v as int].uid@ == uid@
            },
            None => !has_node(graph_nodes(*g), fp@, uid@),
        },
{
    let n = graph_node_count(g);
    let mut v: usize = 0;
    while v < n
        invariant
            0 <= v <= n,
            n == graph_nodes(*g).len(),
            forall|a: int|
                0 <= a < v ==> !((#[trigger] graph_nodes(*g)[a]).fingerprint@ == fp@
                    && graph_nodes(*g)[a].uid@ == uid@),
        decreases n - v,
    {
        let w = graph_node_get(g, v);
        if w.fingerprint.eq(fp) && w.uid.eq(uid) {
            return Some(v);
        }
        v = v + 1;
    }
    None
}

/// No edge is owed at position (`i`, `j`, `s`): completeness extends past
/// it unchanged.
proof fn lemma_complete_step_skipped(
    keys: Seq<OpenPgpKey>,
    nodes: Seq<GraphNodeUid>,
    edges: Seq<(usize, usize, GraphEdgeSig)>,
    primary_only: bool,
    show_self_sigs: bool,
    i: int,
    j: int,
    s: int,
)
    requires
        edges_complete_upto(keys, nodes, edges, primary_only, show_self_sigs, i, j, s),
        forall|ik: int|
            !(issuer_resolves(
                keys,
                keys[i].user_ids@[j].sig_vec@[s].fingerprint@,
                ik,
            ) && (show_self_sigs || (#[trigger] keys[ik]).primary_user_id@
                != keys[i].user_ids@[j].uid@)),
    ensures
        edges_complete_upto(keys, nodes, edges, primary_only, show_self_sigs, i, j, s + 1),
{
    assert forall|ki: int, ji: int, si: int, ik2: int|
        #![trigger keys[ki].user_ids@[ji].sig_vec@[si], keys[ik2]]
        {
            &&& uid_shown(keys, ki, ji, primary_only)
            &&& 0 <= si < keys[ki].user_ids@[ji].sig_vec@.len()
            &&& before_pos(ki, ji, si, i, j, s + 1)
            &&& issuer_resolves(keys, keys[ki].user_ids@[ji].sig_vec@[si].fingerprint@, ik2)
            &&& (show_self_sigs || keys[ik2].primary_user_id@ != keys[ki].user_ids@[ji].uid@)
        } implies has_edge(
        nodes,
        edges,
        keys[ik2].id@,
        keys[ik2].primary_user_id@,
        keys[ki].id@,
        keys[ki].user_ids@[ji].uid@,
        edge_payload(keys[ki].user_ids@[ji].sig_vec@[si]),
    ) by {
        if !before_pos(ki, ji, si, i, j, s) {
            assert(ki == i && ji == j && si == s);
            assert(false);
        }
    }
}

/// The edge just appended covers position (`i`, `j`, `s`); completeness
/// extends past it.
#[verifier::rlimit(100)]
proof fn lemma_complete_step_covered(
    keys: Seq<OpenPgpKey>,
    nodes: Seq<GraphNodeUid>,
    pre_edges: Seq<(usize, usize, GraphEdgeSig)>,
    edges: Seq<(usize, usize, GraphEdgeSig)>,
    primary_only: bool,
    show_self_sigs: bool,
    i: int,
    j: int,
    s: int,
    ik: int,
)
    requires
        forall|a: int, b: int| 0 <= a < b < keys.len() ==> keys[a].id@ != keys[b].id@,
        uid_shown(keys, i, j, primary_only),
        0 <= s < keys[i].user_ids@[j].sig_vec@.len(),
        issuer_resolves(keys, keys[i].user_ids@[j].sig_vec@[s].fingerprint@, ik),
        edges == pre_edges.push(
            (pre_edges.len() as usize, 0usize, edge_payload(keys[i].user_ids@[j].sig_vec@[s])),
        ) || edges.len() == pre_edges.len() + 1,
        forall|x: int| 0 <= x < pre_edges.len() ==> edges[x] == pre_edges[x],
        edges.len() == pre_edges.len() + 1,
        (edges.last().0 as int) < nodes.len(),
        (edges.last().1 as int) < nodes.len(),
        nodes[edges.last().0 as int].fingerprint@ == keys[ik].id@,
        nodes[edges.last().0 as int].uid@ == keys[ik].primary_user_id@,
        nodes[edges.last().1 as int].fingerprint@ == keys[i].id@,
        nodes[edges.last().1 as int].uid@ == keys[i].user_ids@[j].uid@,
        edges.last().2 == edge_payload(keys[i].user_ids@[j].sig_vec@[s]),
        edges_complete_upto(keys, nodes, pre_edges, primary_only, show_self_sigs, i, j, s),
    ensures
        edges_complete_upto(keys, nodes, edges, primary_only, show_self_sigs, i, j, s + 1),
{
    assert forall|ki: int, ji: int, si: int, ik2: int|
        #![trigger keys[ki].user_ids@[ji].sig_vec@[si], keys[ik2]]
        {
            &&& uid_shown(keys, ki, ji, primary_only)
            &&& 0 <= si < keys[ki].user_ids@[ji].sig_vec@.len()
            &&& before_pos(ki, ji, si, i, j, s + 1)
            &&& issuer_resolves(keys, keys[ki].user_ids@[ji].sig_vec@[si].fingerprint@, ik2)
            &&& (show_self_sigs || keys[ik2].primary_user_id@ != keys[ki].user_ids@[ji].uid@)
        } implies has_edge(
        nodes,
        edges,
        keys[ik2].id@,
        keys[ik2].primary_user_id@,
        keys[ki].id@,
        keys[ki].user_ids@[ji].uid@,
        edge_payload(keys[ki].user_ids@[ji].sig_vec@[si]),
    ) by {
        if before_pos(ki, ji, si, i, j, s) {
            assert(has_edge(
                nodes,
                pre_edges,
                keys[ik2].id@,
                keys[ik2].primary_user_id@,
                keys[ki].id@,
                keys[ki].user_ids@[ji].uid@,
                edge_payload(keys[ki].user_ids@[ji].sig_vec@[si]),
            ));
            let w = choose|e: int|
                {
                    &&& 0 <= e < pre_edges.len()
                    &&& ((#[trigger] pre_edges[e]).0 as int) < nodes.len()
                    &&& (pre_edges[e].1 as int) < nodes.len()
                    &&& nodes[pre_edges[e].0 as int].fingerprint@ == keys[ik2].id@
                    &&& nodes[pre_edges[e].0 as int].uid@ == keys[ik2].primary_user_id@
                    &&& nodes[pre_edges[e].1 as int].fingerprint@ == keys[ki].id@
                    &&& nodes[pre_edges[e].1 as int].uid@ == keys[ki].user_ids@[ji].uid@
                    &&& pre_edges[e].2 == edge_payload(keys[ki].user_ids@[ji].sig_vec@[si])
                };
            assert(edges[w] == pre_edges[w]);
        } else {
            assert(ki == i && ji == j && si == s);
            // The issuer key is unique by id, so the appended edge is the
            // owed one.
            if ik2 != ik {
                if ik2 < ik {
                    assert(keys[ik2].id@ != keys[ik].id@);
                } else {
                    assert(keys[ik].id@ != keys[ik2].id@);
                }
                assert(false);
            }
            let w = edges.len() - 1;
            assert(edges[w] == edges.last());
        }
    }
}

/// Adds the edges of every certification on the shown identity at
/// (`i`, `j`): each with a resolvable issuer and past the self-signature
/// filter gets an edge from the issuer's primary identity vertex.
#[verifier::rlimit(100)]
fn add_uid_edges(
    g: &mut TrustGraph,
    model: &KeySet,
    i: usize,
    j: usize,
    show_primary_uid_only: bool,
    show_self_sigs: bool,
)
    requires
        model.wf(),
        i < model.keys@.len(),
        j < model.keys@[i as int].user_ids@.len(),
        uid_shown(model.keys@, i as int, j as int, show_primary_uid_only),
        nodes_ok(model.keys@, graph_nodes(*old(g)), show_primary_uid_only),
        edges_sound(
            model.keys@,
            graph_nodes(*old(g)),
            graph_edges(*old(g)),
            show_primary_uid_only,
            show_self_sigs,
        ),
        edges_complete_upto(
            model.keys@,
            graph_nodes(*old(g)),
            graph_edges(*old(g)),
            show_primary_uid_only,
            show_self_sigs,
            i as int,
            j as int,
            0,
        ),
        graph_edges(*old(g)).len() + model.keys@[i as int].user_ids@[j as int].sig_vec@.len()
            < 0xFFFF_FFFF,
    ensures
        graph_nodes(*final(g)) == graph_nodes(*old(g)),
        edges_sound(
            model.keys@,
            graph_nodes(*final(g)),
            graph_edges(*final(g)),
            show_primary_uid_only,
            show_self_sigs,
        ),
        edges_complete_upto(
            model.keys@,
            graph_nodes(*final(g)),
            graph_edges(*final(g)),
            show_primary_uid_only,
            show_self_sigs,
            i as int,
            j as int + 1,
            0,
        ),
        graph_edges(*final(g)).len() <= graph_edges(*old(g)).len() + model.keys@[i as int].user_ids@[j as int].sig_vec@.len(),
        graph_edges(*final(g)).len() == graph_edges(*old(g)).len() + admissible_in_uid(
            model.keys@,
            i as int,
            j as int,
            model.keys@[i as int].user_ids@[j as int].sig_vec@.len() as int,
            show_primary_uid_only,
            show_self_sigs,
        ),
{
    let ghost keys = model.keys@;
    let key = &model.keys[i];
    let uid = &key.user_ids[j];
    let target_v = match find_vertex(g, &key.id, &uid.uid) {
        Some(v) => v,
        None => {
            proof {
                assert(uid_shown(keys, i as int, j as int, show_primary_uid_only));
                assert(has_node(
                    graph_nodes(*g),
                    keys[i as int].id@,
                    keys[i as int].user_ids@[j as int].uid@,
                ));
                assert(false);
            }
            0
        },
    };
    let mut s: usize = 0;
    while s < uid.sig_vec.len()
        invariant
            0 <= s <= uid.sig_vec@.len(),
            model.wf(),
            keys == model.keys@,
            i < keys.len(),
            j < keys[i as int].user_ids@.len(),
            key == &keys[i as int],
            uid == &keys[i as int].user_ids@[j as int],
            uid_shown(keys, i as int, j as int, show_primary_uid_only),
            graph_nodes(*g) == graph_nodes(*old(g)),
            graph_edges(*old(g)).len() + uid.sig_vec@.len() < 0xFFFF_FFFF,
            (target_v as int) < graph_nodes(*g).len(),
            graph_nodes(*g)[target_v as int].fingerprint@ == keys[i as int].id@,
            graph_nodes(*g)[target_v as int].uid@ == keys[i as int].user_ids@[j as int].uid@,
            nodes_ok(keys, graph_nodes(*g), show_primary_uid_only),
            edges_sound(
                keys,
                graph_nodes(*g),
                graph_edges(*g),
                show_primary_uid_only,
                show_self_sigs,
            ),
            edges_complete_upto(
                keys,
                graph_nodes(*g),
                graph_edges(*g),
                show_primary_uid_only,
                show_self_sigs,
                i as int,
                j as int,
                s as int,
            ),
            graph_edges(*g).len() <= graph_edges(*old(g)).len() + s,
            graph_edges(*g).len() == graph_edges(*old(g)).len() + admissible_in_uid(
                keys,
                i as int,
                j as int,
                s as int,
                show_primary_uid_only,
                show_self_sigs,
            ),
        decreases uid.sig_vec@.len() - s,
    {
        let sig = &uid.sig_vec[s];
        let ghost pre_edges = graph_edges(*g);
        let found = model.get(&sig.fingerprint);
        match found {
            Some(issuer_key) => {
                let prim_found = issuer_key.get_user_id(&issuer_key.primary_user_id);
                match prim_found {
                    Some(prim) => {
                        if !(!show_self_sigs && prim.uid.eq(&uid.uid)) {
                            let ghost ik = choose|ix: int|
                                0 <= ix < keys.len() && keys[ix].id@ == sig.fingerprint@;
                            proof {
                                let ix0 = choose|ix: int|
                                    0 <= ix < keys.len() && keys[ix] == *issuer_key;
                                if ix0 != ik {
                                    if ix0 < ik {
                                        assert(keys[ix0].id@ != keys[ik].id@);
                                    } else {
                                        assert(keys[ik].id@ != keys[ix0].id@);
                                    }
                                }
                                assert(keys[ik] == *issuer_key);
                                let jp = choose|jj: int|
                                    0 <= jj < issuer_key.user_ids@.len()
                                        && issuer_key.user_ids@[jj] == *prim;
                                assert(keys[ik].user_ids@[jp].uid@ == keys[ik].primary_user_id@);
                                assert(keys[ik].user_ids@[jp].is_primary);
                                assert(uid_shown(keys, ik, jp, show_primary_uid_only));
                                assert(has_node(
                                    graph_nodes(*g),
                                    keys[ik].id@,
                                    keys[ik].user_ids@[jp].uid@,
                                ));
                                assert(issuer_resolves(keys, sig.fingerprint@, ik));
                            }
                            let from_v = match find_vertex(g, &issuer_key.id, &prim.uid) {
                                Some(v) => v,
                                None => {
                                    proof {
                                        assert(false);
                                    }
                                    0
                                },
                            };
                            graph_add_edge(g, from_v, target_v, GraphEdgeSig::of_sig(sig));
                            proof {
                                assert(graph_edges(*g) == pre_edges.push(
                                    (
                                        from_v,
                                        target_v,
                                        edge_payload(
                                            keys[i as int].user_ids@[j as int].sig_vec@[s as int],
                                        ),
                                    ),
                                ));
                                assert(edge_matches(
                                    keys,
                                    graph_nodes(*g),
                                    graph_edges(*g).last(),
                                    show_primary_uid_only,
                                    show_self_sigs,
                                ));
                                assert forall|x: int| 0 <= x < graph_edges(*g).len() implies
                                edge_matches(
                                    keys,
                                    graph_nodes(*g),
                                    #[trigger] graph_edges(*g)[x],
                                    show_primary_uid_only,
                                    show_self_sigs,
                                ) by {
                                    if x < pre_edges.len() {
                                        assert(graph_edges(*g)[x] == pre_edges[x]);
                                    } else {
                                        assert(graph_edges(*g)[x] == graph_edges(*g).last());
                                    }
                                }
                                lemma_complete_step_covered(
                                    keys,
                                    graph_nodes(*g),
                                    pre_edges,
                                    graph_edges(*g),
                                    show_primary_uid_only,
                                    show_self_sigs,
                                    i as int,
                                    j as int,
                                    s as int,
                                    ik,
                                );
                                assert(sig_admissible(
                                    keys,
                                    i as int,
                                    j as int,
                                    s as int,
                                    show_primary_uid_only,
                                    show_self_sigs,
                                ));
                            }
                        } else {
                            proof {
                                // Hidden self-signature: the unique issuer
                                // key's primary identity text equals the
                                // target's, so no edge is owed here.
                                let ix0 = choose|ix: int|
                                    0 <= ix < keys.len() && keys[ix] == *issuer_key;
                                assert forall|ik2: int|
                                    !(issuer_resolves(
                                        keys,
                                        keys[i as int].user_ids@[j as int].sig_vec@[s as int].fingerprint@,
                                        ik2,
                                    ) && (show_self_sigs || (#[trigger] keys[ik2]).primary_user_id@
                                        != keys[i as int].user_ids@[j as int].uid@)) by {
                                    if issuer_resolves(keys, sig.fingerprint@, ik2) {
                                        if ik2 != ix0 {
                                            if ik2 < ix0 {
                                                assert(keys[ik2].id@ != keys[ix0].id@);
                                            } else {
                                                assert(keys[ix0].id@ != keys[ik2].id@);
                                            }
                                        }
                                        assert(keys[ik2].primary_user_id@ == prim.uid@);
                                    }
                                }
                                lemma_complete_step_skipped(
                                    keys,
                                    graph_nodes(*g),
                                    graph_edges(*g),
                                    show_primary_uid_only,
                                    show_self_sigs,
                                    i as int,
                                    j as int,
                                    s as int,
                                );
                                assert(!sig_admissible(
                                    keys,
                                    i as int,
                                    j as int,
                                    s as int,
                                    show_primary_uid_only,
                                    show_self_sigs,
                                ));
                            }
                        }
                    },
                    None => {
                        proof {
                            // The issuer key has no identity for its
                            // declared primary identity text: the edge's
                            // source cannot be resolved.
                            let ix0 = choose|ix: int|
                                0 <= ix < keys.len() && keys[ix] == *issuer_key;
                            assert forall|ik2: int|
                                !(issuer_resolves(
                                    keys,
                                    keys[i as int].user_ids@[j as int].sig_vec@[s as int].fingerprint@,
                                    ik2,
                                ) && (show_self_sigs || (#[trigger] keys[ik2]).primary_user_id@
                                    != keys[i as int].user_ids@[j as int].uid@)) by {
                                if issuer_resolves(keys, sig.fingerprint@, ik2) {
                                    if ik2 != ix0 {
                                        if ik2 < ix0 {
                                            assert(keys[ik2].id@ != keys[ix0].id@);
                                        } else {
                                            assert(keys[ix0].id@ != keys[ik2].id@);
                                        }
                                    }
                                    assert(has_uid(
                                        issuer_key.user_ids@,
                                        issuer_key.primary_user_id@,
                                    ));
                                }
                            }
                            lemma_complete_step_skipped(
                                keys,
                                graph_nodes(*g),
                                graph_edges(*g),
                                show_primary_uid_only,
                                show_self_sigs,
                                i as int,
                                j as int,
                                s as int,
                            );
                            assert(!sig_admissible(
                                keys,
                                i as int,
                                j as int,
                                s as int,
                                show_primary_uid_only,
                                show_self_sigs,
                            ));
                        }
                    },
                }
            },
            None => {
                proof {
                    // The issuer key is not in the model: expected, and no
                    // edge is owed.
                    assert forall|ik2: int|
                        !(issuer_resolves(
                            keys,
                            keys[i as int].user_ids@[j as int].sig_vec@[s as int].fingerprint@,
                            ik2,
                        ) && (show_self_sigs || (#[trigger] keys[ik2]).primary_user_id@
                            != keys[i as int].user_ids@[j as int].uid@)) by {
                        if issuer_resolves(keys, sig.fingerprint@, ik2) {
                            assert(crate::model::has_key(keys, sig.fingerprint@));
                        }
                    }
                    lemma_complete_step_skipped(
                        keys,
                        graph_nodes(*g),
                        graph_edges(*g),
                        show_primary_uid_only,
                        show_self_sigs,
                        i as int,
                        j as int,
                        s as int,
                    );
                    assert(!sig_admissible(
                        keys,
                        i as int,
                        j as int,
                        s as int,
                        show_primary_uid_only,
                        show_self_sigs,
                    ));
                }
            },
        }
        s = s + 1;
    }
}

/// Whether the certification at (`i`, `j`, `s`) produces an edge: its
/// target identity is shown, its issuer key is in the model with a
/// resolvable primary identity, and the self-signature filter admits it.
pub open spec fn sig_admissible(
    keys: Seq<OpenPgpKey>,
    i: int,
    j: int,
    s: int,
    primary_only: bool,
    show_self_sigs: bool,
) -> bool {
    &&& uid_shown(keys, i, j, primary_only)
    &&& 0 <= s < keys[i].user_ids@[j].sig_vec@.len()
    &&& exists|ik: int|
        issuer_resolves(keys, keys[i].user_ids@[j].sig_vec@[s].fingerprint@, ik) && (
        show_self_sigs || (#[trigger] keys[ik]).primary_user_id@ != keys[i].user_ids@[j].uid@)
}

/// The number of admissible certifications among the first `n` on the
/// identity at (`i`, `j`).
pub open spec fn admissible_in_uid(
    keys: Seq<OpenPgpKey>,
    i: int,
    j: int,
    n: int,
    primary_only: bool,
    show_self_sigs: bool,
) -> nat
    decreases n,
{
    if n <= 0 {
        0
    } else {
        admissible_in_uid(keys, i, j, n - 1, primary_only, show_self_sigs) + (if sig_admissible(
            keys,
            i,
            j,
            n - 1,
            primary_only,
            show_self_sigs,
        ) {
            1nat
        } else {
            0nat
        })
    }
}

/// The number of admissible certifications on the first `m` identities of
/// the key at `i`.
pub open spec fn admissible_in_key(
    keys: Seq<OpenPgpKey>,
    i: int,
    m: int,
    primary_only: bool,
    show_self_sigs: bool,
) -> nat
    decreases m,
{
    if m <= 0 {
        0
    } else {
        admissible_in_key(keys, i, m - 1, primary_only, show_self_sigs) + admissible_in_uid(
            keys,
            i,
            m - 1,
            keys[i].user_ids@[m - 1].sig_vec@.len() as int,
            primary_only,
            show_self_sigs,
        )
    }
}

/// The number of admissible certifications on the first `n` keys: exactly
/// one edge is owed per admissible certification.
pub open spec fn admissible_total(
    keys: Seq<OpenPgpKey>,
    n: int,
    primary_only: bool,
    show_self_sigs: bool,
) -> nat
    decreases n,
{
    if n <= 0 {
        0
    } else {
        admissible_total(keys, n - 1, primary_only, show_self_sigs) + admissible_in_key(
            keys,
            n - 1,
            keys[n - 1].user_ids@.len() as int,
            primary_only,
            show_self_sigs,
        )
    }
}

/// A hidden identity admits no certification.
proof fn lemma_hidden_uid_admits_none(
    keys: Seq<OpenPgpKey>,
    i: int,
    j: int,
    n: int,
    primary_only: bool,
    show_self_sigs: bool,
)
    requires
        !uid_shown(keys, i, j, primary_only),
    ensures
        admissible_in_uid(keys, i, j, n, primary_only, show_self_sigs) == 0,
    decreases n,
{
    if n > 0 {
        lemma_hidden_uid_admits_none(keys, i, j, n - 1, primary_only, show_self_sigs);
    }
}

/// Whether position (`a`, `b`) comes before (`i`, `j`) in the vertex pass.
pub open spec fn before_uid(a: int, b: int, i: int, j: int) -> bool {
    ||| a < i
    ||| (a == i && b < j)
}

/// Whether a vertex stands for a shown identity before position (`i`, `j`).
pub open spec fn node_from_prefix(
    keys: Seq<OpenPgpKey>,
    v: GraphNodeUid,
    primary_only: bool,
    i: int,
    j: int,
) -> bool {
    exists|a: int, b: int|
        uid_shown(keys, a, b, primary_only) && before_uid(a, b, i, j) && (
        #[trigger] keys[a].user_ids@[b]).uid@ == v.uid@ && keys[a].id@ == v.fingerprint@
}

/// The vertex-pass invariant at position (`i`, `j`): every vertex stands
/// for a shown identity already passed, every such identity has a vertex,
/// and no pair appears twice.
pub open spec fn nodes_ok_prefix(
    keys: Seq<OpenPgpKey>,
    nodes: Seq<GraphNodeUid>,
    primary_only: bool,
    i: int,
    j: int,
) -> bool {
    &&& forall|v: int|
        0 <= v < nodes.len() ==> node_from_prefix(keys, #[trigger] nodes[v], primary_only, i, j)
    &&& forall|a: int, b: int|
        uid_shown(keys, a, b, primary_only) && before_uid(a, b, i, j) ==> has_node(
            nodes,
            keys[a].id@,
            (#[trigger] keys[a].user_ids@[b]).uid@,
        )
    &&& forall|a: int, b: int|
        0 <= a < b < nodes.len() ==> !(nodes[a].fingerprint@ == nodes[b].fingerprint@
            && nodes[a].uid@ == nodes[b].uid@)
}

/// A vertex from before one position is from before any later position.
proof fn lemma_node_prefix_extend(
    keys: Seq<OpenPgpKey>,
    v: GraphNodeUid,
    primary_only: bool,
    a1: int,
    b1: int,
    a2: int,
    b2: int,
)
    requires
        node_from_prefix(keys, v, primary_only, a1, b1),
        a1 < a2 || (a1 == a2 && b1 <= b2),
    ensures
        node_from_prefix(keys, v, primary_only, a2, b2),
{
    let (a, b): (int, int) = choose|a: int, b: int|
        uid_shown(keys, a, b, primary_only) && before_uid(a, b, a1, b1) && (
        #[trigger] keys[a].user_ids@[b]).uid@ == v.uid@ && keys[a].id@ == v.fingerprint@;
    assert(before_uid(a, b, a2, b2));
}

/// Adds a vertex for every shown identity of the key at `i`.
#[verifier::rlimit(100)]
fn add_key_nodes(g: &mut TrustGraph, model: &KeySet, i: usize, show_primary_uid_only: bool)
    requires
        model.wf(),
        i < model.keys@.len(),
        nodes_ok_prefix(model.keys@, graph_nodes(*old(g)), show_primary_uid_only, i as int, 0),
        graph_nodes(*old(g)).len() + model.keys@[i as int].user_ids@.len() < 0xFFFF_FFFF,
    ensures
        graph_edges(*final(g)) == graph_edges(*old(g)),
        nodes_ok_prefix(
            model.keys@,
            graph_nodes(*final(g)),
            show_primary_uid_only,
            i as int + 1,
            0,
        ),
        graph_nodes(*final(g)).len() <= graph_nodes(*old(g)).len()
            + model.keys@[i as int].user_ids@.len(),
{
    let ghost keys = model.keys@;
    let key = &model.keys[i];
    let mut j: usize = 0;
    while j < key.user_ids.len()
        invariant
            0 <= j <= key.user_ids@.len(),
            model.wf(),
            keys == model.keys@,
            i < keys.len(),
            key == &keys[i as int],
            graph_edges(*g) == graph_edges(*old(g)),
            nodes_ok_prefix(keys, graph_nodes(*g), show_primary_uid_only, i as int, j as int),
            graph_nodes(*g).len() <= graph_nodes(*old(g)).len() + j,
            graph_nodes(*old(g)).len() + key.user_ids@.len() < 0xFFFF_FFFF,
        decreases key.user_ids@.len() - j,
    {
        let uid = &key.user_ids[j];
        let ghost pre_nodes = graph_nodes(*g);
        if !show_primary_uid_only || uid.is_primary {
            let w = GraphNodeUid::of_uid(uid);
            let ghost gw = w;
            graph_add_node(g, w);
            proof {
                let last = pre_nodes.len() as int;
                assert(graph_nodes(*g) == pre_nodes.push(gw));
                assert(uid_shown(keys, i as int, j as int, show_primary_uid_only));
                // Soundness of every vertex at the next position.
                assert forall|v: int| 0 <= v < graph_nodes(*g).len() implies node_from_prefix(
                    keys,
                    #[trigger] graph_nodes(*g)[v],
                    show_primary_uid_only,
                    i as int,
                    j as int + 1,
                ) by {
                    if v < last {
                        assert(graph_nodes(*g)[v] == pre_nodes[v]);
                        lemma_node_prefix_extend(
                            keys,
                            graph_nodes(*g)[v],
                            show_primary_uid_only,
                            i as int,
                            j as int,
                            i as int,
                            j as int + 1,
                        );
                    } else {
                        assert(before_uid(i as int, j as int, i as int, j as int + 1));
                        assert((keys[i as int].user_ids@[j as int]).uid@ == gw.uid@
                            && keys[i as int].id@ == gw.fingerprint@);
                    }
                }
                // Completeness at the next position.
                assert forall|a: int, b: int|
                    uid_shown(keys, a, b, show_primary_uid_only) && before_uid(
                        a,
                        b,
                        i as int,
                        j as int + 1,
                    ) implies has_node(
                    graph_nodes(*g),
                    keys[a].id@,
                    (#[trigger] keys[a].user_ids@[b]).uid@,
                ) by {
                    if before_uid(a, b, i as int, j as int) {
                        let v0 = choose|v: int|
                            0 <= v < pre_nodes.len() && (#[trigger] pre_nodes[v]).fingerprint@
                                == keys[a].id@ && pre_nodes[v].uid@ == keys[a].user_ids@[b].uid@;
                        assert(graph_nodes(*g)[v0] == pre_nodes[v0]);
                    } else {
                        assert(a == i as int && b == j as int);
                        assert(graph_nodes(*g)[last].fingerprint@ == keys[a].id@
                            && graph_nodes(*g)[last].uid@ == keys[a].user_ids@[b].uid@);
                    }
                }
                // No pair appears twice: an earlier vertex with this pair
                // would stand for this very identity, which is only now
                // being passed.
                assert forall|a: int, b: int| 0 <= a < b < graph_nodes(*g).len() implies !(
                graph_nodes(*g)[a].fingerprint@ == graph_nodes(*g)[b].fingerprint@ && graph_nodes(
                    *g,
                )[a].uid@ == graph_nodes(*g)[b].uid@) by {
                    if b < last {
                        assert(graph_nodes(*g)[a] == pre_nodes[a]);
                        assert(graph_nodes(*g)[b] == pre_nodes[b]);
                    } else {
                        assert(graph_nodes(*g)[a] == pre_nodes[a]);
                        if graph_nodes(*g)[a].fingerprint@ == gw.fingerprint@ && graph_nodes(
                            *g,
                        )[a].uid@ == gw.uid@ {
                            let (a2, b2): (int, int) = choose|a2: int, b2: int|
                                uid_shown(keys, a2, b2, show_primary_uid_only) && before_uid(
                                    a2,
                                    b2,
                                    i as int,
                                    j as int,
                                ) && (#[trigger] keys[a2].user_ids@[b2]).uid@
                                    == pre_nodes[a].uid@ && keys[a2].id@
                                    == pre_nodes[a].fingerprint@;
                            if a2 != i as int {
                                if a2 < i as int {
                                    assert(keys[a2].id@ != keys[i as int].id@);
                                } else {
                                    assert(keys[i as int].id@ != keys[a2].id@);
                                }
                                assert(false);
                            }
                            assert(keys[i as int].wf());
                            if b2 != j as int {
                                if b2 < j as int {
                                    assert(keys[i as int].user_ids@[b2].uid@
                                        != keys[i as int].user_ids@[j as int].uid@);
                                } else {
                                    assert(keys[i as int].user_ids@[j as int].uid@
                                        != keys[i as int].user_ids@[b2].uid@);
                                }
                                assert(false);
                            }
                            assert(!before_uid(a2, b2, i as int, j as int));
                            assert(false);
                        }
                    }
                }
            }
        } else {
            proof {
                assert forall|v: int| 0 <= v < graph_nodes(*g).len() implies node_from_prefix(
                    keys,
                    #[trigger] graph_nodes(*g)[v],
                    show_primary_uid_only,
                    i as int,
                    j as int + 1,
                ) by {
                    lemma_node_prefix_extend(
                        keys,
                        graph_nodes(*g)[v],
                        show_primary_uid_only,
                        i as int,
                        j as int,
                        i as int,
                        j as int + 1,
                    );
                }
                assert forall|a: int, b: int|
                    uid_shown(keys, a, b, show_primary_uid_only) && before_uid(
                        a,
                        b,
                        i as int,
                        j as int + 1,
                    ) implies has_node(
                    graph_nodes(*g),
                    keys[a].id@,
                    (#[trigger] keys[a].user_ids@[b]).uid@,
                ) by {
                    if !before_uid(a, b, i as int, j as int) {
                        assert(a == i as int && b == j as int);
                        assert(false);
                    }
                }
            }
        }
        j = j + 1;
    }
    proof {
        // The end of this key is the start of the next.
        assert forall|v: int| 0 <= v < graph_nodes(*g).len() implies node_from_prefix(
            keys,
            #[trigger] graph_nodes(*g)[v],
            show_primary_uid_only,
            i as int + 1,
            0,
        ) by {
            let (a, b): (int, int) = choose|a: int, b: int|
                uid_shown(keys, a, b, show_primary_uid_only) && before_uid(
                    a,
                    b,
                    i as int,
                    key.user_ids@.len() as int,
                ) && (#[trigger] keys[a].user_ids@[b]).uid@ == graph_nodes(*g)[v].uid@
                    && keys[a].id@ == graph_nodes(*g)[v].fingerprint@;
            assert(before_uid(a, b, i as int + 1, 0));
        }
        assert forall|a: int, b: int|
            uid_shown(keys, a, b, show_primary_uid_only) && before_uid(
                a,
                b,
                i as int + 1,
                0,
            ) implies has_node(
            graph_nodes(*g),
            keys[a].id@,
            (#[trigger] keys[a].user_ids@[b]).uid@,
        ) by {
            assert(before_uid(a, b, i as int, key.user_ids@.len() as int));
        }
    }
}

/// No certification at the hidden identity (`i`, `j`) owes an edge.
proof fn lemma_complete_skip_uid(
    keys: Seq<OpenPgpKey>,
    nodes: Seq<GraphNodeUid>,
    edges: Seq<(usize, usize, GraphEdgeSig)>,
    primary_only: bool,
    show_self_sigs: bool,
    i: int,
    j: int,
)
    requires
        edges_complete_upto(keys, nodes, edges, primary_only, show_self_sigs, i, j, 0),
        !uid_shown(keys, i, j, primary_only),
    ensures
        edges_complete_upto(keys, nodes, edges, primary_only, show_self_sigs, i, j + 1, 0),
{
    assert forall|ki: int, ji: int, si: int, ik2: int|
        #![trigger keys[ki].user_ids@[ji].sig_vec@[si], keys[ik2]]
        {
            &&& uid_shown(keys, ki, ji, primary_only)
            &&& 0 <= si < keys[ki].user_ids@[ji].sig_vec@.len()
            &&& before_pos(ki, ji, si, i, j + 1, 0)
            &&& issuer_resolves(keys, keys[ki].user_ids@[ji].sig_vec@[si].fingerprint@, ik2)
            &&& (show_self_sigs || keys[ik2].primary_user_id@ != keys[ki].user_ids@[ji].uid@)
        } implies has_edge(
        nodes,
        edges,
        keys[ik2].id@,
        keys[ik2].primary_user_id@,
        keys[ki].id@,
        keys[ki].user_ids@[ji].uid@,
        edge_payload(keys[ki].user_ids@[ji].sig_vec@[si]),
    ) by {
        if !before_pos(ki, ji, si, i, j, 0) {
            assert(ki == i && ji == j);
            assert(false);
        }
    }
}

/// The end of one key's certifications is the start of the next key's.
proof fn lemma_complete_next_key(
    keys: Seq<OpenPgpKey>,
    nodes: Seq<GraphNodeUid>,
    edges: Seq<(usize, usize, GraphEdgeSig)>,
    primary_only: bool,
    show_self_sigs: bool,
    i: int,
)
    requires
        0 <= i < keys.len(),
        edges_complete_upto(
            keys,
            nodes,
            edges,
            primary_only,
            show_self_sigs,
            i,
            keys[i].user_ids@.len() as int,
            0,
        ),
    ensures
        edges_complete_upto(keys, nodes, edges, primary_only, show_self_sigs, i + 1, 0, 0),
{
    assert forall|ki: int, ji: int, si: int, ik2: int|
        #![trigger keys[ki].user_ids@[ji].sig_vec@[si], keys[ik2]]
        {
            &&& uid_shown(keys, ki, ji, primary_only)
            &&& 0 <= si < keys[ki].user_ids@[ji].sig_vec@.len()
            &&& before_pos(ki, ji, si, i + 1, 0, 0)
            &&& issuer_resolves(keys, keys[ki].user_ids@[ji].sig_vec@[si].fingerprint@, ik2)
            &&& (show_self_sigs || keys[ik2].primary_user_id@ != keys[ki].user_ids@[ji].uid@)
        } implies has_edge(
        nodes,
        edges,
        keys[ik2].id@,
        keys[ik2].primary_user_id@,
        keys[ki].id@,
        keys[ki].user_ids@[ji].uid@,
        edge_payload(keys[ki].user_ids@[ji].sig_vec@[si]),
    ) by {
        assert(before_pos(ki, ji, si, i, keys[i].user_ids@.len() as int, 0));
    }
}

/// Builds the trust graph of the model: a vertex for every identity that the
/// primary-only filter shows, and, for every certification on a shown
/// identity whose issuer key is in the model with a resolvable primary
/// identity, an edge from the issuer's primary identity vertex, unless
/// self-signatures are hidden and the issuer's primary identity text equals
/// the target identity's text. Each admissible certification produces its
/// own edge: the graph is a multigraph, and the edge count equals the
/// number of admissible certifications.
#[verifier::rlimit(100)]
pub fn build_graph(model: &KeySet, show_primary_uid_only: bool, show_self_sigs: bool) -> (g:
    TrustGraph)
    requires
        model.wf(),
        total_uids(model.keys@) < 0xFFFF_FFFF,
        total_sigs(model.keys@) < 0xFFFF_FFFF,
    ensures
        graph_matches(
            model.keys@,
            graph_nodes(g),
            graph_edges(g),
            show_primary_uid_only,
            show_self_sigs,
        ),
        graph_edges(g).len() == admissible_total(
            model.keys@,
            model.keys@.len() as int,
            show_primary_uid_only,
            show_self_sigs,
        ),
{
    let ghost keys = model.keys@;
    let mut g = graph_new();
    let mut i: usize = 0;
    while i < model.keys.len()
        invariant
            0 <= i <= keys.len(),
            model.wf(),
            keys == model.keys@,
            total_uids(keys) < 0xFFFF_FFFF,
            graph_edges(g) == Seq::<(usize, usize, GraphEdgeSig)>::empty(),
            nodes_ok_prefix(keys, graph_nodes(g), show_primary_uid_only, i as int, 0),
            graph_nodes(g).len() <= total_uids(keys.subrange(0, i as int)),
        decreases keys.len() - i,
    {
        proof {
            lemma_total_uids_step(keys, i as int);
            lemma_total_uids_mono(keys, i as int + 1);
        }
        add_key_nodes(&mut g, model, i, show_primary_uid_only);
        i = i + 1;
    }
    proof {
        assert forall|v: int| 0 <= v < graph_nodes(g).len() implies node_matches(
            keys,
            #[trigger] graph_nodes(g)[v],
            show_primary_uid_only,
        ) by {
            let (a, b): (int, int) = choose|a: int, b: int|
                uid_shown(keys, a, b, show_primary_uid_only) && before_uid(
                    a,
                    b,
                    keys.len() as int,
                    0,
                ) && (#[trigger] keys[a].user_ids@[b]).uid@ == graph_nodes(g)[v].uid@
                    && keys[a].id@ == graph_nodes(g)[v].fingerprint@;
            assert(uid_shown(keys, a, b, show_primary_uid_only) && keys[a].user_ids@[b].uid@
                == graph_nodes(g)[v].uid@ && keys[a].id@ == graph_nodes(g)[v].fingerprint@);
        }
        assert forall|a: int, b: int|
            uid_shown(keys, a, b, show_primary_uid_only) implies has_node(
            graph_nodes(g),
            keys[a].id@,
            (#[trigger] keys[a].user_ids@[b]).uid@,
        ) by {
            assert(before_uid(a, b, keys.len() as int, 0));
        }
        assert(nodes_ok(keys, graph_nodes(g), show_primary_uid_only));
        assert(edges_complete_upto(
            keys,
            graph_nodes(g),
            graph_edges(g),
            show_primary_uid_only,
            show_self_sigs,
            0,
            0,
            0,
        ));
    }
    let mut i2: usize = 0;
    while i2 < model.keys.len()
        invariant
            0 <= i2 <= keys.len(),
            model.wf(),
            keys == model.keys@,
            total_sigs(keys) < 0xFFFF_FFFF,
            nodes_ok(keys, graph_nodes(g), show_primary_uid_only),
            edges_sound(
                keys,
                graph_nodes(g),
                graph_edges(g),
                show_primary_uid_only,
                show_self_sigs,
            ),
            edges_complete_upto(
                keys,
                graph_nodes(g),
                graph_edges(g),
                show_primary_uid_only,
                show_self_sigs,
                i2 as int,
                0,
                0,
            ),
            graph_edges(g).len() <= total_sigs(keys.subrange(0, i2 as int)),
            graph_edges(g).len() == admissible_total(
                keys,
                i2 as int,
                show_primary_uid_only,
                show_self_sigs,
            ),
        decreases keys.len() - i2,
    {
        let key = &model.keys[i2];
        let mut j: usize = 0;
        while j < key.user_ids.len()
            invariant
                0 <= j <= key.user_ids@.len(),
                model.wf(),
                keys == model.keys@,
                i2 < keys.len(),
                key == &keys[i2 as int],
                total_sigs(keys) < 0xFFFF_FFFF,
                nodes_ok(keys, graph_nodes(g), show_primary_uid_only),
                edges_sound(
                    keys,
                    graph_nodes(g),
                    graph_edges(g),
                    show_primary_uid_only,
                    show_self_sigs,
                ),
                edges_complete_upto(
                    keys,
                    graph_nodes(g),
                    graph_edges(g),
                    show_primary_uid_only,
                    show_self_sigs,
                    i2 as int,
                    j as int,
                    0,
                ),
                graph_edges(g).len() <= total_sigs(keys.subrange(0, i2 as int)) + uids_sigs(
                    key.user_ids@.subrange(0, j as int),
                ),
                graph_edges(g).len() == admissible_total(
                    keys,
                    i2 as int,
                    show_primary_uid_only,
                    show_self_sigs,
                ) + admissible_in_key(keys, i2 as int, j as int, show_primary_uid_only,
                show_self_sigs),
            decreases key.user_ids@.len() - j,
        {
            let uid = &key.user_ids[j];
            proof {
                lemma_uids_sigs_step(key.user_ids@, j as int);
                lemma_uids_sigs_mono(key.user_ids@, j as int + 1);
                lemma_total_sigs_step(keys, i2 as int);
                lemma_total_sigs_mono(keys, i2 as int + 1);
            }
            if !show_primary_uid_only || uid.is_primary {
                add_uid_edges(&mut g, model, i2, j, show_primary_uid_only, show_self_sigs);
            } else {
                proof {
                    lemma_complete_skip_uid(
                        keys,
                        graph_nodes(g),
                        graph_edges(g),
                        show_primary_uid_only,
                        show_self_sigs,
                        i2 as int,
                        j as int,
                    );
                    lemma_hidden_uid_admits_none(
                        keys,
                        i2 as int,
                        j as int,
                        keys[i2 as int].user_ids@[j as int].sig_vec@.len() as int,
                        show_primary_uid_only,
                        show_self_sigs,
                    );
                }
            }
            j = j + 1;
        }
        proof {
            assert(key.user_ids@.subrange(0, key.user_ids@.len() as int) =~= key.user_ids@);
            lemma_total_sigs_step(keys, i2 as int);
            lemma_complete_next_key(
                keys,
                graph_nodes(g),
                graph_edges(g),
                show_primary_uid_only,
                show_self_sigs,
                i2 as int,
            );
        }
        i2 = i2 + 1;
    }
    g
}

/// No self-loops when self-signatures are hidden: every rendered edge's
/// source and target vertices carry different identity texts.
pub proof fn lemma_no_self_edges(
    model: Seq<OpenPgpKey>,
    nodes: Seq<GraphNodeUid>,
    edges: Seq<(usize, usize, GraphEdgeSig)>,
    primary_only: bool,
)
    requires
        graph_matches(model, nodes, edges, primary_only, false),
    ensures
        forall|e: int|
            0 <= e < edges.len() ==> nodes[(#[trigger] edges[e]).0 as int].uid@
                != nodes[edges[e].1 as int].uid@,
{
    assert forall|e: int| 0 <= e < edges.len() implies nodes[(#[trigger] edges[e]).0 as int].uid@
        != nodes[edges[e].1 as int].uid@ by {
        assert(edge_matches(model, nodes, edges[e], primary_only, false));
        let (i, j, si, ik): (int, int, int, int) = choose|i: int, j: int, si: int, ik: int|
            #![trigger model[i].user_ids@[j].sig_vec@[si], model[ik]]
            {
                &&& uid_shown(model, i, j, primary_only)
                &&& 0 <= si < model[i].user_ids@[j].sig_vec@.len()
                &&& nodes[edges[e].1 as int].fingerprint@ == model[i].id@
                &&& nodes[edges[e].1 as int].uid@ == model[i].user_ids@[j].uid@
                &&& edges[e].2 == edge_payload(model[i].user_ids@[j].sig_vec@[si])
                &&& issuer_resolves(model, model[i].user_ids@[j].sig_vec@[si].fingerprint@, ik)
                &&& nodes[edges[e].0 as int].fingerprint@ == model[ik].id@
                &&& nodes[edges[e].0 as int].uid@ == model[ik].primary_user_id@
                &&& (!false ==> model[ik].primary_user_id@ != model[i].user_ids@[j].uid@)
            };
        assert(nodes[edges[e].0 as int].uid@ == model[ik].primary_user_id@);
    }
}

/// Whether a vertex stands for a primary identity of the model.
pub open spec fn vertex_is_primary(model: Seq<OpenPgpKey>, v: GraphNodeUid) -> bool {
    exists|i: int, j: int|
        {
            &&& 0 <= i < model.len()
            &&& 0 <= j < model[i].user_ids@.len()
            &&& (#[trigger] model[i].user_ids@[j]).is_primary
            &&& model[i].id@ == v.fingerprint@
            &&& model[i].user_ids@[j].uid@ == v.uid@
        }
}

/// Primary filter closure: with the primary-only filter on, every rendered
/// vertex stands for a primary identity, and both endpoints of every
/// rendered edge are rendered vertices, hence primary identities too.
pub proof fn lemma_primary_filter_closure(
    model: Seq<OpenPgpKey>,
    nodes: Seq<GraphNodeUid>,
    edges: Seq<(usize, usize, GraphEdgeSig)>,
    show_self_sigs: bool,
)
    requires
        graph_matches(model, nodes, edges, true, show_self_sigs),
    ensures
        forall|v: int| 0 <= v < nodes.len() ==> vertex_is_primary(model, #[trigger] nodes[v]),
        forall|e: int|
            0 <= e < edges.len() ==> ((#[trigger] edges[e]).0 as int) < nodes.len() && (
            edges[e].1 as int) < nodes.len(),
{
    assert forall|v: int| 0 <= v < nodes.len() implies vertex_is_primary(
        model,
        #[trigger] nodes[v],
    ) by {
        assert(node_matches(model, nodes[v], true));
        let (a, b): (int, int) = choose|a: int, b: int|
            uid_shown(model, a, b, true) && (#[trigger] model[a].user_ids@[b]).uid@
                == nodes[v].uid@ && model[a].id@ == nodes[v].fingerprint@;
        assert(model[a].user_ids@[b].is_primary && model[a].id@ == nodes[v].fingerprint@
            && model[a].user_ids@[b].uid@ == nodes[v].uid@);
    }
    assert forall|e: int| 0 <= e < edges.len() implies ((#[trigger] edges[e]).0 as int)
        < nodes.len() && (edges[e].1 as int) < nodes.len() by {
        assert(edge_matches(model, nodes, edges[e], true, show_self_sigs));
    }
}

} // verus!

