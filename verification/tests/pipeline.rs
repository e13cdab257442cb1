//! End-to-end checks of the pipeline: model building, layer assignment,
//! depth filtering, gossip fetching, graph building and rendering.
use pgp_graph::builder::{build_model, RawCert, RawSig, RawUid};
use pgp_graph::config::{validate_config, ConfigError, RunConfig};
use pgp_graph::gossip::{gossip_fetch, GossipFetcher};
use pgp_graph::graph::{build_graph, graph_edge_count, graph_node_count};
use pgp_graph::layers::{assign_layers, filter_by_depth, LayerMap};
use pgp_graph::model::{
    get_pgp_uid_by_node_uid, GraphNodeUid, KeySet, OpenPgpSigTrust, SigType,
};
use pgp_graph::render::{complex_output, render_dot, simple_output};

fn raw_sig(issuer: &str, sig_type: u8, amount: u8, time: Option<u64>) -> RawSig {
    RawSig {
        issuer_fingerprint: Some(issuer.to_string()),
        issuer_uid: None,
        trust_level: 0,
        trust_amount: amount,
        sig_type,
        creation_time: time,
    }
}

fn raw_uid(text: &str, sigs: Vec<RawSig>) -> RawUid {
    RawUid {
        uid: text.to_string(),
        name: None,
        email: None,
        comment: None,
        is_revoked: false,
        sigs,
    }
}

fn raw_cert(fp: &str, primary: &str, uids: Vec<RawUid>) -> RawCert {
    RawCert {
        fingerprint: fp.to_string(),
        policy_ok: true,
        is_revoked: false,
        expiration_time: None,
        primary_user_id: Some(primary.to_string()),
        user_ids: uids,
    }
}

/// The example scenario's model: key R whose identity carries one
/// certification issued by S, and key S with a plain identity.
fn two_key_model() -> KeySet {
    let certs = vec![
        raw_cert(
            "R",
            "alice",
            vec![raw_uid("alice", vec![raw_sig("S", 0x10, 120, Some(7))])],
        ),
        raw_cert("S", "bob", vec![raw_uid("bob", vec![])]),
    ];
    build_model(&certs, 1000, &None)
}

#[test]
fn trust_amount_buckets() {
    assert_eq!(OpenPgpSigTrust::from_raw(0), OpenPgpSigTrust::NoTrust);
    assert_eq!(OpenPgpSigTrust::from_raw(1), OpenPgpSigTrust::Partial);
    assert_eq!(OpenPgpSigTrust::from_raw(60), OpenPgpSigTrust::Partial);
    assert_eq!(OpenPgpSigTrust::from_raw(119), OpenPgpSigTrust::Partial);
    assert_eq!(OpenPgpSigTrust::from_raw(120), OpenPgpSigTrust::Complete);
    assert_eq!(OpenPgpSigTrust::from_raw(255), OpenPgpSigTrust::Complete);
}

#[test]
fn sig_type_bytes() {
    assert_eq!(SigType::from_raw(0x10), SigType::Generic);
    assert_eq!(SigType::from_raw(0x11), SigType::Persona);
    assert_eq!(SigType::from_raw(0x12), SigType::Casual);
    assert_eq!(SigType::from_raw(0x13), SigType::Positive);
    assert_eq!(SigType::from_raw(0x30), SigType::Revocation);
    assert_eq!(SigType::from_raw(0x42), SigType::Unknown(0x42));
}

#[test]
fn build_model_drops_policy_failures() {
    let mut bad = raw_cert("X", "x", vec![raw_uid("x", vec![])]);
    bad.policy_ok = false;
    let certs = vec![bad, raw_cert("Y", "y", vec![raw_uid("y", vec![])])];
    let model = build_model(&certs, 0, &None);
    assert!(model.get(&"X".to_string()).is_none());
    assert!(model.get(&"Y".to_string()).is_some());
}

#[test]
fn build_model_drops_timeless_certifications() {
    let sigs = vec![raw_sig("S", 0x10, 0, None), raw_sig("T", 0x10, 0, Some(5))];
    let certs = vec![raw_cert("R", "alice", vec![raw_uid("alice", sigs)])];
    let model = build_model(&certs, 0, &None);
    let key = model.get(&"R".to_string()).expect("key");
    let uid = key.get_user_id(&"alice".to_string()).expect("uid");
    assert_eq!(uid.sig_vec.len(), 1);
    assert_eq!(uid.sig_vec[0].fingerprint, "T");
    assert_eq!(uid.sig_vec[0].creation_time, 5);
}

#[test]
fn build_model_keeps_missing_issuer_as_empty() {
    let sig = RawSig {
        issuer_fingerprint: None,
        issuer_uid: None,
        trust_level: 3,
        trust_amount: 60,
        sig_type: 0x13,
        creation_time: Some(9),
    };
    let certs = vec![raw_cert("R", "alice", vec![raw_uid("alice", vec![sig])])];
    let model = build_model(&certs, 0, &None);
    let key = model.get(&"R".to_string()).expect("key");
    let uid = key.get_user_id(&"alice".to_string()).expect("uid");
    assert_eq!(uid.sig_vec.len(), 1);
    assert_eq!(uid.sig_vec[0].fingerprint, "");
    assert_eq!(uid.sig_vec[0].trust_level, 3);
    assert_eq!(uid.sig_vec[0].trust_value, OpenPgpSigTrust::Partial);
    assert_eq!(uid.sig_vec[0].sig_type, SigType::Positive);
}

#[test]
fn build_model_derives_primary_and_expiry() {
    let mut cert = raw_cert(
        "R",
        "alice",
        vec![raw_uid("alice", vec![]), raw_uid("work", vec![])],
    );
    cert.expiration_time = Some(500);
    let model = build_model(&vec![cert], 1000, &None);
    let key = model.get(&"R".to_string()).expect("key");
    assert!(key.is_expired);
    assert!(key.get_user_id(&"alice".to_string()).expect("uid").is_primary);
    assert!(!key.get_user_id(&"work".to_string()).expect("uid").is_primary);
}

#[test]
fn build_model_last_write_wins() {
    let mut first = raw_cert("R", "old", vec![raw_uid("old", vec![])]);
    first.is_revoked = true;
    let second = raw_cert("R", "new", vec![raw_uid("new", vec![])]);
    let model = build_model(&vec![first, second], 0, &None);
    assert_eq!(model.len(), 1);
    let key = model.get(&"R".to_string()).expect("key");
    assert!(!key.is_revoked);
    assert_eq!(key.primary_user_id, "new");
}

#[test]
fn build_model_restrict_filter() {
    let certs = vec![
        raw_cert("R", "alice", vec![raw_uid("alice", vec![])]),
        raw_cert("S", "bob", vec![raw_uid("bob", vec![])]),
    ];
    let restrict = Some(vec!["R".to_string()]);
    let model = build_model(&certs, 0, &restrict);
    assert!(model.get(&"R".to_string()).is_some());
    assert!(model.get(&"S".to_string()).is_none());
}

#[test]
fn layers_of_example_scenario() {
    let model = two_key_model();
    let layers = assign_layers(&model, &vec!["R".to_string()]);
    assert_eq!(layers.get(&"R".to_string()), Some(0));
    assert_eq!(layers.get(&"S".to_string()), Some(1));
    assert_eq!(layers.get(&"T".to_string()), None);
}

#[test]
fn layering_runs_agree() {
    let model = two_key_model();
    let roots = vec!["R".to_string()];
    let first = assign_layers(&model, &roots);
    let second = assign_layers(&model, &roots);
    for id in ["R", "S", "T"] {
        assert_eq!(first.get(&id.to_string()), second.get(&id.to_string()));
    }
}

#[test]
fn layers_keep_smallest() {
    // Two chains reach C: one hop via its own certification on A, two hops
    // via B. The one-hop layer wins.
    let certs = vec![
        raw_cert(
            "A",
            "a",
            vec![raw_uid(
                "a",
                vec![raw_sig("B", 0x10, 0, Some(1)), raw_sig("C", 0x10, 0, Some(2))],
            )],
        ),
        raw_cert("B", "b", vec![raw_uid("b", vec![raw_sig("C", 0x10, 0, Some(3))])]),
        raw_cert("C", "c", vec![raw_uid("c", vec![])]),
    ];
    let model = build_model(&certs, 0, &None);
    let layers = assign_layers(&model, &vec!["A".to_string()]);
    assert_eq!(layers.get(&"A".to_string()), Some(0));
    assert_eq!(layers.get(&"B".to_string()), Some(1));
    assert_eq!(layers.get(&"C".to_string()), Some(1));
}

#[test]
fn depth_filter_drops_deep_and_unreached() {
    let certs = vec![
        raw_cert("A", "a", vec![raw_uid("a", vec![raw_sig("B", 0x10, 0, Some(1))])]),
        raw_cert("B", "b", vec![raw_uid("b", vec![raw_sig("C", 0x10, 0, Some(2))])]),
        raw_cert("C", "c", vec![raw_uid("c", vec![])]),
        raw_cert("D", "d", vec![raw_uid("d", vec![])]),
    ];
    let model = build_model(&certs, 0, &None);
    let layers = assign_layers(&model, &vec!["A".to_string()]);
    let depth1 = filter_by_depth(build_model(&certs, 0, &None), &layers, 1);
    assert!(depth1.get(&"A".to_string()).is_some());
    assert!(depth1.get(&"B".to_string()).is_some());
    assert!(depth1.get(&"C".to_string()).is_none());
    assert!(depth1.get(&"D".to_string()).is_none());
    let unlimited = filter_by_depth(build_model(&certs, 0, &None), &layers, 0);
    assert!(unlimited.get(&"C".to_string()).is_some());
    assert!(unlimited.get(&"D".to_string()).is_none());
}

fn fetch_table() -> Vec<RawCert> {
    vec![
        raw_cert("R", "alice", vec![raw_uid("alice", vec![raw_sig("S", 0x10, 0, Some(1))])]),
        raw_cert("S", "bob", vec![raw_uid("bob", vec![raw_sig("R", 0x10, 0, Some(2))])]),
    ]
}

#[test]
fn gossip_fetch_example_scenario() {
    let table = fetch_table();
    let fetched = gossip_fetch(&table, &vec!["R".to_string()], 1);
    let ids: Vec<&str> = fetched.iter().map(|i| table[*i].fingerprint.as_str()).collect();
    assert_eq!(ids, vec!["R", "S"]);
}

#[test]
fn gossip_fetch_terminates_on_cycle() {
    // R and S certify each other; unlimited depth still fetches each once.
    let table = fetch_table();
    let fetched = gossip_fetch(&table, &vec!["R".to_string()], 0);
    assert_eq!(fetched.len(), 2);
}

#[test]
fn gossip_fetch_skips_failures() {
    let table = fetch_table();
    // A failing lookup is skipped and never fatal; depth 0 walks without a
    // hop limit.
    let fetched = gossip_fetch(&table, &vec!["missing".to_string(), "S".to_string()], 0);
    let ids: Vec<&str> = fetched.iter().map(|i| table[*i].fingerprint.as_str()).collect();
    assert_eq!(ids, vec!["S", "R"]);
}

#[test]
fn gossip_fetcher_walks_one_request_at_a_time() {
    let table = fetch_table();
    let mut fetcher = GossipFetcher::new(vec!["R".to_string()], 1);
    let first = fetcher.next_request().expect("first request");
    assert_eq!(first, "R");
    fetcher.on_success(&table[0]);
    let second = fetcher.next_request().expect("second request");
    assert_eq!(second, "S");
    fetcher.on_failure();
    assert!(fetcher.next_request().is_none());
    assert_eq!(fetcher.fetched_ids, vec!["R".to_string()]);
}

#[test]
fn graph_of_example_scenario() {
    let model = two_key_model();
    let g = build_graph(&model, false, true);
    assert_eq!(graph_node_count(&g), 2);
    assert_eq!(graph_edge_count(&g), 1);
}

#[test]
fn graph_skips_unknown_issuers() {
    let certs = vec![raw_cert(
        "R",
        "alice",
        vec![raw_uid("alice", vec![raw_sig("nowhere", 0x10, 0, Some(1))])],
    )];
    let model = build_model(&certs, 0, &None);
    let g = build_graph(&model, false, true);
    assert_eq!(graph_node_count(&g), 1);
    assert_eq!(graph_edge_count(&g), 0);
}

#[test]
fn graph_hides_self_signatures() {
    // R's identity carries a certification by R itself.
    let certs = vec![raw_cert(
        "R",
        "alice",
        vec![raw_uid("alice", vec![raw_sig("R", 0x13, 0, Some(1))])],
    )];
    let model = build_model(&certs, 0, &None);
    let hidden = build_graph(&model, false, false);
    assert_eq!(graph_edge_count(&hidden), 0);
    let shown = build_graph(&model, false, true);
    assert_eq!(graph_edge_count(&shown), 1);
}

#[test]
fn graph_keeps_parallel_edges() {
    // Two certifications by S on the same identity of R: a multigraph
    // keeps both edges.
    let certs = vec![
        raw_cert(
            "R",
            "alice",
            vec![raw_uid(
                "alice",
                vec![raw_sig("S", 0x10, 0, Some(1)), raw_sig("S", 0x10, 0, Some(1))],
            )],
        ),
        raw_cert("S", "bob", vec![raw_uid("bob", vec![])]),
    ];
    let model = build_model(&certs, 0, &None);
    let g = build_graph(&model, false, true);
    assert_eq!(graph_node_count(&g), 2);
    assert_eq!(graph_edge_count(&g), 2);
}

#[test]
fn gossip_fetch_walks_two_hops() {
    let table = vec![
        raw_cert("R", "a", vec![raw_uid("a", vec![raw_sig("S", 0x10, 0, Some(1))])]),
        raw_cert("S", "b", vec![raw_uid("b", vec![raw_sig("T", 0x10, 0, Some(2))])]),
        raw_cert("T", "c", vec![raw_uid("c", vec![])]),
    ];
    let one = gossip_fetch(&table, &vec!["R".to_string()], 1);
    let ids: Vec<&str> = one.iter().map(|i| table[*i].fingerprint.as_str()).collect();
    assert_eq!(ids, vec!["R", "S"]);
    let two = gossip_fetch(&table, &vec!["R".to_string()], 2);
    let ids: Vec<&str> = two.iter().map(|i| table[*i].fingerprint.as_str()).collect();
    assert_eq!(ids, vec!["R", "S", "T"]);
}

#[test]
fn graph_primary_only_filter() {
    let certs = vec![raw_cert(
        "R",
        "alice",
        vec![raw_uid("alice", vec![]), raw_uid("work", vec![])],
    )];
    let model = build_model(&certs, 0, &None);
    let all = build_graph(&model, false, true);
    assert_eq!(graph_node_count(&all), 2);
    let primary = build_graph(&model, true, true);
    assert_eq!(graph_node_count(&primary), 1);
}

#[test]
fn accessor_pairs() {
    let model = two_key_model();
    let key = model.get(&"R".to_string()).expect("key");
    let uid = key.get_user_id(&"alice".to_string()).expect("uid");
    assert_eq!(uid.key(), "R");
    assert_eq!(uid.uid(), "alice");
    assert_eq!(uid.sig_vec[0].key(), "S");
    assert_eq!(uid.sig_vec[0].uid(), "");
    let node = GraphNodeUid {
        fingerprint: "R".to_string(),
        uid: "alice".to_string(),
    };
    assert_eq!(node.key(), "R");
    assert_eq!(node.uid(), "alice");
}

#[test]
fn lookup_by_node_uid() {
    let model = two_key_model();
    let node = GraphNodeUid {
        fingerprint: "R".to_string(),
        uid: "alice".to_string(),
    };
    let uid = get_pgp_uid_by_node_uid(&model, &node).expect("resolved");
    assert!(uid.is_primary);
    let missing = GraphNodeUid {
        fingerprint: "R".to_string(),
        uid: "nobody".to_string(),
    };
    assert!(get_pgp_uid_by_node_uid(&model, &missing).is_none());
}

#[test]
fn revocation_edge_is_styled() {
    let certs = vec![
        raw_cert("R", "alice", vec![raw_uid("alice", vec![raw_sig("S", 0x30, 0, Some(7))])]),
        raw_cert("S", "bob", vec![raw_uid("bob", vec![])]),
    ];
    let model = build_model(&certs, 0, &None);
    let g = build_graph(&model, false, true);
    let out = render_dot(&model, &g, &LayerMap::new(), false, true);
    assert!(out.contains(" color = red "));
    let plain = two_key_model();
    let g2 = build_graph(&plain, false, true);
    let out2 = render_dot(&plain, &g2, &LayerMap::new(), false, true);
    assert!(!out2.contains(" color = red "));
}

#[test]
fn render_marks_roots_and_layers() {
    let model = two_key_model();
    let layers = assign_layers(&model, &vec!["R".to_string()]);
    let g = build_graph(&model, false, true);
    let out = render_dot(&model, &g, &layers, true, false);
    assert!(out.contains(" root = true "));
    assert!(out.contains("\\\"layer\\\":0"));
    assert!(out.contains("\\\"layer\\\":1"));
}

#[test]
fn render_simple_and_structured_labels() {
    let model = two_key_model();
    let g = build_graph(&model, false, true);
    let simple = render_dot(&model, &g, &LayerMap::new(), false, true);
    assert!(simple.contains("label = \"alice\""));
    assert!(simple.contains("label = \"Generic\""));
    let json = render_dot(&model, &g, &LayerMap::new(), false, false);
    assert!(json.contains("\\\"fingerprint\\\":\\\"R\\\""));
    assert!(json.contains("\\\"trust_value\\\":\\\"Complete\\\""));
    assert!(json.starts_with("digraph {\n"));
    assert!(json.ends_with("}\n"));
}

#[test]
fn render_escapes_label_text() {
    // An identity text holding a quote must be escaped in the JSON record;
    // an unescaped serialization would break the document.
    let certs = vec![raw_cert("R", "say \"hi\"", vec![raw_uid("say \"hi\"", vec![])])];
    let model = build_model(&certs, 0, &None);
    let g = build_graph(&model, false, true);
    let out = render_dot(&model, &g, &LayerMap::new(), false, false);
    assert!(out.contains("say \\\\\\\"hi\\\\\\\""));
}

#[test]
fn simple_and_complex_output_modes() {
    let model = two_key_model();
    let key = model.get(&"R".to_string()).expect("key");
    let uid = key.get_user_id(&"alice".to_string()).expect("uid");
    let structured = "structured".to_string();
    let plain = "plain".to_string();
    assert_eq!(simple_output(true, &structured, &plain), "plain");
    assert_eq!(simple_output(false, &structured, &plain), "structured");
    let layers = LayerMap::new();
    let fallback = uid.uid.clone();
    assert_eq!(complex_output(uid, false, true, &layers, &fallback), "alice");
    let json = complex_output(uid, false, false, &layers, &fallback);
    assert!(json.contains("\"uid\":\"alice\""));
    assert!(!json.contains("\"layer\""));
    let layered = complex_output(uid, true, false, &layers, &fallback);
    assert!(layered.contains("\"layer\":-1"));
}

#[test]
fn config_validation_rules() {
    let base = RunConfig {
        gossip: None,
        online: false,
        has_import: true,
        has_fingerprints: false,
        show_primary_uid_only: false,
        show_self_sigs: false,
        simple: false,
    };
    assert_eq!(validate_config(&base), Ok(()));
    let mut c = base;
    c.gossip = Some(0);
    c.online = true;
    assert_eq!(validate_config(&c), Err(ConfigError::UnlimitedOnlineGossip));
    let mut c = base;
    c.has_import = false;
    assert_eq!(validate_config(&c), Err(ConfigError::NoInput));
    let mut c = base;
    c.has_import = false;
    c.has_fingerprints = true;
    assert_eq!(validate_config(&c), Err(ConfigError::OfflineWithoutKeyring));
    assert_eq!(
        ConfigError::OfflineWithoutKeyring.describe(),
        "Offline mode is not allowed without keyring"
    );
}
