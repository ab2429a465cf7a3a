use pathbreaker::channel_route::{
    find_end_points, get_final_routes, shared_edge_node_policies, Route,
};
use pathbreaker::constraints::{Constraints, EnumerationError};
use pathbreaker::graph::{BlindedPath, ChannelGraph, Edge, Node, NodePolicy};

fn policy(fee_base_msat: &str, min_htlc: &str, time_lock_delta: u32) -> NodePolicy {
    NodePolicy {
        time_lock_delta,
        min_htlc: min_htlc.to_string(),
        fee_base_msat: fee_base_msat.to_string(),
        fee_rate_milli_msat: "1".to_string(),
        disabled: false,
        max_htlc_msat: "100000000".to_string(),
        last_update: 0,
    }
}

fn node(pub_key: &str) -> Node {
    Node {
        last_update: 0,
        pub_key: pub_key.to_string(),
        alias: pub_key.to_string(),
        addresses: Vec::new(),
        color: "#000000".to_string(),
    }
}

fn edge(channel_id: &str, n1: &str, n2: &str, p1: NodePolicy, p2: NodePolicy) -> Edge {
    Edge {
        channel_id: channel_id.to_string(),
        chan_point: format!("{}:0", channel_id),
        last_update: 0,
        node1_pub: n1.to_string(),
        node2_pub: n2.to_string(),
        capacity: "1000000".to_string(),
        node1_policy: p1,
        node2_policy: p2,
    }
}

fn blinded(intro: &str, hops: usize, fee: u64, min: u64, cltv: u32) -> BlindedPath {
    let mut blinded_nodes = Vec::new();
    for i in 0..hops {
        blinded_nodes.push(format!("blinded{}", i));
    }
    BlindedPath {
        introduction_node: intro.to_string(),
        blinded_nodes,
        fee_base_msat: fee,
        fee_proportional_millionths: 1,
        htlc_minimum_msat: min,
        cltv_expiry_delta: cltv,
        max_cltv_expiry: 1000,
    }
}

fn route(nodes: &[&str], channels: &[&str]) -> Route {
    Route {
        nodes: nodes.iter().map(|s| s.to_string()).collect(),
        channel_ids: channels.iter().map(|s| s.to_string()).collect(),
        constraints: Constraints::default(),
    }
}

#[test]
fn line_graph_yields_single_route_to_the_far_end() {
    // A - B - C, with an envelope wide enough for both hops: the only
    // terminal route is A -> B -> C; none may end at B, which still extends.
    let graph = ChannelGraph {
        nodes: vec![node("A"), node("B"), node("C")],
        edges: vec![
            edge("1", "A", "B", policy("1000", "1000", 40), policy("1000", "1000", 40)),
            edge("2", "B", "C", policy("1000", "1000", 40), policy("1000", "1000", 40)),
        ],
    };
    let bp = blinded("A", 2, 2000, 1500, 80);
    let routes = get_final_routes(&graph, &bp).unwrap();
    assert_eq!(routes.len(), 1);
    assert_eq!(routes[0].nodes, vec!["A".to_string(), "B".to_string(), "C".to_string()]);
    assert_eq!(routes[0].channel_ids, vec!["1".to_string(), "2".to_string()]);
    assert_eq!(routes[0].constraints.path_length, 3);
    assert_eq!(routes[0].constraints.fee_base_msat, 2000);
    assert_eq!(routes[0].constraints.htlc_minimum_msat, 1000);
    assert_eq!(routes[0].constraints.cltv_expiry_delta, 80);
    assert!(routes.iter().all(|r| r.nodes.last().unwrap() != "B"));
}

#[test]
fn exhausted_envelope_leaves_only_the_introduction_node() {
    // The target admits a single hop in total, so every extension from A
    // would break the path-length budget: the sole terminal route is A alone.
    let graph = ChannelGraph {
        nodes: vec![node("A"), node("B")],
        edges: vec![edge("1", "A", "B", policy("0", "0", 0), policy("0", "0", 0))],
    };
    let bp = blinded("A", 0, 2000, 1500, 80);
    let routes = get_final_routes(&graph, &bp).unwrap();
    assert_eq!(routes.len(), 1);
    assert_eq!(routes[0].nodes, vec!["A".to_string()]);
    assert!(routes[0].channel_ids.is_empty());
    assert_eq!(routes[0].constraints.path_length, 1);
}

#[test]
fn parallel_extensions_branch_into_distinct_routes() {
    // A touches both B and C: two distinct terminal routes must come out.
    let graph = ChannelGraph {
        nodes: vec![node("A"), node("B"), node("C")],
        edges: vec![
            edge("1", "A", "B", policy("100", "100", 10), policy("100", "100", 10)),
            edge("2", "A", "C", policy("100", "100", 10), policy("100", "100", 10)),
        ],
    };
    let bp = blinded("A", 1, 2000, 1500, 80);
    let routes = get_final_routes(&graph, &bp).unwrap();
    assert_eq!(routes.len(), 2);
    let mut ends: Vec<String> = routes.iter().map(|r| r.nodes.last().unwrap().clone()).collect();
    ends.sort();
    assert_eq!(ends, vec!["B".to_string(), "C".to_string()]);
}

#[test]
fn malformed_policy_on_a_reached_branch_aborts() {
    let graph = ChannelGraph {
        nodes: vec![node("A"), node("B")],
        edges: vec![edge("1", "A", "B", policy("100", "100", 10), policy("1x0", "100", 10))],
    };
    let bp = blinded("A", 1, 2000, 1500, 80);
    let res = get_final_routes(&graph, &bp);
    assert!(matches!(res, Err(EnumerationError::MalformedPolicy)));
}

#[test]
fn neighbor_policy_follows_the_direction_of_travel() {
    let graph = ChannelGraph {
        nodes: vec![node("A"), node("B")],
        edges: vec![edge("1", "A", "B", policy("111", "100", 10), policy("222", "100", 10))],
    };
    // From A the neighbor is B (the second endpoint), so B's policy applies.
    let from_a = shared_edge_node_policies(&graph, "A");
    assert_eq!(from_a.len(), 1);
    assert_eq!(from_a[0].0, "B");
    assert_eq!(from_a[0].1, "1");
    assert_eq!(from_a[0].2.fee_base_msat, "222");
    // From B the neighbor is A (the first endpoint), so A's policy applies.
    let from_b = shared_edge_node_policies(&graph, "B");
    assert_eq!(from_b.len(), 1);
    assert_eq!(from_b[0].0, "A");
    assert_eq!(from_b[0].2.fee_base_msat, "111");
    // A stranger touches no edge.
    assert!(shared_edge_node_policies(&graph, "Z").is_empty());
}

#[test]
fn endpoint_counts_sum_to_the_number_of_routes() {
    let routes = vec![
        route(&["A", "B"], &["1"]),
        route(&["A", "C"], &["2"]),
        route(&["A", "D", "C"], &["3", "4"]),
        route(&["A", "C", "B"], &["2", "5"]),
    ];
    let ranked = find_end_points(&routes);
    assert_eq!(ranked.len(), 2);
    let mut keys: Vec<String> = ranked.iter().map(|p| p.0.clone()).collect();
    keys.sort();
    assert_eq!(keys, vec!["B".to_string(), "C".to_string()]);
    assert!(ranked.iter().all(|p| p.1 == 2));
    let total: usize = ranked.iter().map(|p| p.1).sum();
    assert_eq!(total, routes.len());
    for w in ranked.windows(2) {
        assert!(w[0].1 >= w[1].1);
    }
}

#[test]
fn endpoint_counts_are_sorted_non_increasing() {
    let routes = vec![
        route(&["A", "B"], &["1"]),
        route(&["X", "B"], &["2"]),
        route(&["Y", "B"], &["3"]),
        route(&["A", "C"], &["4"]),
    ];
    let ranked = find_end_points(&routes);
    assert_eq!(ranked[0], ("B".to_string(), 3));
    assert_eq!(ranked[1], ("C".to_string(), 1));
}

#[test]
fn extending_a_route_builds_a_fresh_value() {
    let base = route(&["A"], &[]);
    let next = Constraints {
        path_length: 1,
        fee_base_msat: 10,
        htlc_minimum_msat: 20,
        cltv_expiry_delta: 5,
    };
    let extended = base.create_new_route(&"B".to_string(), &"1".to_string(), next);
    assert_eq!(extended.nodes, vec!["A".to_string(), "B".to_string()]);
    assert_eq!(extended.channel_ids, vec!["1".to_string()]);
    assert_eq!(extended.constraints.path_length, 2);
    assert_eq!(extended.constraints.fee_base_msat, 10);
    assert_eq!(extended.constraints.htlc_minimum_msat, 20);
    assert_eq!(extended.constraints.cltv_expiry_delta, 5);
    // the original is untouched
    assert_eq!(base.nodes, vec!["A".to_string()]);
    assert!(base.channel_ids.is_empty());
}

#[test]
fn malformed_policy_off_the_search_path_is_ignored() {
    // The bad policy sits on a channel the search never reads: D is not
    // reachable within the envelope, so enumeration still succeeds.
    let graph = ChannelGraph {
        nodes: vec![node("A"), node("B"), node("C"), node("D")],
        edges: vec![
            edge("1", "A", "B", policy("100", "100", 10), policy("100", "100", 10)),
            edge("2", "C", "D", policy("bad", "bad", 10), policy("bad", "bad", 10)),
        ],
    };
    let bp = blinded("A", 1, 2000, 1500, 80);
    let routes = get_final_routes(&graph, &bp).unwrap();
    assert_eq!(routes.len(), 1);
    assert_eq!(routes[0].nodes, vec!["A".to_string(), "B".to_string()]);
}

#[test]
fn accumulation_is_associative_on_samples() {
    let a = Constraints { path_length: 1, fee_base_msat: 10, htlc_minimum_msat: 500, cltv_expiry_delta: 9 };
    let b = Constraints { path_length: 2, fee_base_msat: 20, htlc_minimum_msat: 900, cltv_expiry_delta: 8 };
    let c = Constraints { path_length: 3, fee_base_msat: 30, htlc_minimum_msat: 700, cltv_expiry_delta: 7 };
    let left = a.accumulate(&b).accumulate(&c);
    let right = a.accumulate(&b.accumulate(&c));
    assert_eq!(left, right);
}
