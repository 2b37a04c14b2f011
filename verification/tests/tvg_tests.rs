use crossbeam_channel::bounded;
use time_varying_graph::channel::ChannelClosed;
use time_varying_graph::serialization::{JsonTvgData, JsonTvgEdge};
use time_varying_graph::tvg::{Interval, IntervalTvgEdge, Tvg, TvgData};
use time_varying_graph::tvg_path::TvgPath;

fn exchange_edge(from: &str, to: &str, start: f32, end: f32, data: Option<f32>) -> JsonTvgEdge {
    JsonTvgEdge {
        from: from.to_string(),
        to: to.to_string(),
        start: start.to_bits(),
        end: end.to_bits(),
        data: data.map(|d| d.to_bits()),
    }
}

fn four_node_payload() -> JsonTvgData {
    JsonTvgData {
        nodes: vec![
            "Node1".to_string(),
            "Node2".to_string(),
            "Node3".to_string(),
            "Node4".to_string(),
        ],
        edges: vec![
            exchange_edge("Node1", "Node2", 0.0, 1.0, None),
            exchange_edge("Node2", "Node3", 0.0, 1.0, None),
            exchange_edge("Node2", "Node4", 0.0, 1.0, None),
            exchange_edge("Node1", "Node2", 0.0, 1.0, None),
        ],
    }
}

#[test]
fn test_json_load() {
    let data = JsonTvgData {
        nodes: vec!["Node1".to_string(), "Node2".to_string()],
        edges: vec![exchange_edge("Node1", "Node2", 0.0, 1.0, None)],
    };
    let mut tvg = Tvg::new();
    tvg.add_edges_from_json(data).unwrap();

    assert_ne!(tvg.find_node("Node1".to_string()), None);
    assert_ne!(tvg.find_edge("Node1".to_string(), "Node2".to_string()), None);
}

#[test]
fn test_tvg_data_load() {
    let mut tvg = Tvg::new();
    let mut v: Vec<TvgData> = Vec::new();

    v.push(TvgData {
        start_node: String::from("N1"),
        end_node: String::from("N2"),
        interval: IntervalTvgEdge::DataEdge(
            Interval::new(0.0f32.to_bits(), 1.0f32.to_bits()),
            52.0f32.to_bits(),
        ),
    });
    v.push(TvgData {
        start_node: String::from("N1"),
        end_node: String::from("N3"),
        interval: IntervalTvgEdge::DataEdge(
            Interval::new(0.0f32.to_bits(), 3.0f32.to_bits()),
            52.1f32.to_bits(),
        ),
    });

    tvg.add_edges_from_data(v);

    assert_ne!(tvg.find_edge(String::from("N1"), String::from("N3")), None);
    assert_ne!(tvg.find_edge(String::from("N1"), String::from("N2")), None);
    assert_ne!(tvg.find_node(String::from("N1")), None);
    assert_ne!(tvg.find_node(String::from("N2")), None);
    assert_ne!(tvg.find_node(String::from("N3")), None);
}

#[test]
fn tvg_bfs_test() {
    let mut tvg = Tvg::new();
    tvg.add_edges_from_json(four_node_payload()).unwrap();
    let start = tvg.find_node("Node1".to_string()).unwrap();
    let visited: Vec<usize> = vec![start];

    // A bounded channel, otherwise a bigger graph could run out of memory.
    let (sender, receiver) = bounded(50);

    tvg.tvg_bfs(
        start,
        visited,
        &sender,
        |data: &String| data.contains("Node4"),
        None,
    )
    .unwrap();
    drop(sender);

    let mut seen = 0;
    while let Ok((node_name, _path)) = receiver.recv() {
        assert!(node_name.eq("Node4"));
        seen += 1;
    }
    assert_eq!(seen, 1);
}

#[test]
fn add_node_is_idempotent() {
    let mut tvg = Tvg::new();
    let before = tvg.node_count();
    let first = tvg.add_node_no_dup(&"X".to_string());
    let second = tvg.add_node_no_dup(&"X".to_string());
    assert_eq!(first, second);
    assert_eq!(tvg.node_count(), before + 1);
}

#[test]
fn edge_append_reuses_slot() {
    let mut tvg = Tvg::new();
    let a = tvg.add_node_no_dup(&"A".to_string());
    let b = tvg.add_node_no_dup(&"B".to_string());
    let e1 = IntervalTvgEdge::BaseEdge(Interval::new(0.0f32.to_bits(), 1.0f32.to_bits()));
    let e2 = IntervalTvgEdge::BaseEdge(Interval::new(2.0f32.to_bits(), 3.0f32.to_bits()));
    tvg.add_edge_no_dup(a, b, e1);
    tvg.add_edge_no_dup(a, b, e2);
    assert_eq!(tvg.edge_slot_count(), 1);
    let slot = tvg.find_edge("A".to_string(), "B".to_string()).unwrap();
    assert_eq!(*tvg.slot_edges(slot), vec![e1, e2]);
}

#[test]
fn repeated_identical_intervals_are_retained() {
    let mut tvg = Tvg::new();
    let a = tvg.add_node_no_dup(&"A".to_string());
    let b = tvg.add_node_no_dup(&"B".to_string());
    let e = IntervalTvgEdge::BaseEdge(Interval::new(0.0f32.to_bits(), 1.0f32.to_bits()));
    tvg.add_edge_no_dup(a, b, e);
    tvg.add_edge_no_dup(a, b, e);
    let slot = tvg.find_edge("A".to_string(), "B".to_string()).unwrap();
    assert_eq!(tvg.slot_edges(slot).len(), 2);
}

#[test]
fn exchange_round_trip() {
    let payload = JsonTvgData {
        // "B" is declared twice: the store keeps one node for it.
        nodes: vec!["A".to_string(), "B".to_string(), "B".to_string()],
        edges: vec![
            exchange_edge("A", "B", 0.0, 1.0, Some(52.0)),
            exchange_edge("B", "A", 1.0, 2.0, None),
            exchange_edge("A", "B", 0.0, 1.0, Some(52.0)),
        ],
    };
    let mut tvg = Tvg::new();
    tvg.add_edges_from_json(payload.clone()).unwrap();
    let out = tvg.export_to_json();

    let mut in_nodes: Vec<String> = payload.nodes.clone();
    in_nodes.sort();
    in_nodes.dedup();
    let mut out_nodes = out.nodes.clone();
    out_nodes.sort();
    out_nodes.dedup();
    assert_eq!(out_nodes, in_nodes);

    let key = |e: &JsonTvgEdge| (e.from.clone(), e.to.clone(), e.start, e.end, e.data);
    let mut in_edges: Vec<_> = payload.edges.iter().map(key).collect();
    let mut out_edges: Vec<_> = out.edges.iter().map(key).collect();
    in_edges.sort();
    out_edges.sort();
    assert_eq!(out_edges, in_edges);
}

#[test]
fn malformed_exchange_data_is_fatal_and_leaves_no_partial_graph() {
    let payload = JsonTvgData {
        nodes: vec!["A".to_string(), "B".to_string()],
        edges: vec![
            exchange_edge("A", "B", 0.0, 1.0, None),
            exchange_edge("A", "Ghost", 0.0, 1.0, None),
        ],
    };
    let mut tvg = Tvg::new();
    assert!(tvg.add_edges_from_json(payload).is_err());
    // The whole decode aborted: not even the declared nodes were kept.
    assert_eq!(tvg.node_count(), 0);
    assert_eq!(tvg.edge_slot_count(), 0);
}

#[test]
fn equality_compares_intervals_bit_for_bit() {
    let i1 = Interval::new(0.5f32.to_bits(), 1.5f32.to_bits());
    let i2 = Interval::new(0.5f32.to_bits(), 1.5f32.to_bits());
    let i3 = Interval::new(0.5f32.to_bits(), 2.5f32.to_bits());
    assert!(IntervalTvgEdge::BaseEdge(i1).eq(&IntervalTvgEdge::BaseEdge(i2)));
    assert!(!IntervalTvgEdge::BaseEdge(i1).eq(&IntervalTvgEdge::BaseEdge(i3)));
    // The payload of a DataEdge is excluded from equality.
    assert!(IntervalTvgEdge::DataEdge(i1, 1.0f32.to_bits())
        .eq(&IntervalTvgEdge::DataEdge(i2, 9.0f32.to_bits())));
    // NaN payloads compare by bit value, not by IEEE comparison.
    let nan = f32::NAN.to_bits();
    assert!(IntervalTvgEdge::BaseEdge(Interval::new(nan, nan))
        .eq(&IntervalTvgEdge::BaseEdge(Interval::new(nan, nan))));
}

#[test]
fn mixed_tag_comparison_is_never_a_silent_false() {
    let i = Interval::new(0.0f32.to_bits(), 1.0f32.to_bits());
    let plain = IntervalTvgEdge::BaseEdge(i);
    let timed = IntervalTvgEdge::DataEdge(i, 52.0f32.to_bits());
    assert!(plain.checked_eq(&timed).is_err());
    assert!(timed.checked_eq(&plain).is_err());
    assert_eq!(plain.checked_eq(&plain), Ok(true));
}

#[test]
fn depth_cutoff_halts_unmatched_search() {
    // A 3-hop chain A -> B -> C -> D, searched from A with max_depth = 1 and
    // a predicate that never matches: zero results are emitted.
    let payload = JsonTvgData {
        nodes: vec![
            "A".to_string(),
            "B".to_string(),
            "C".to_string(),
            "D".to_string(),
        ],
        edges: vec![
            exchange_edge("A", "B", 0.0, 1.0, None),
            exchange_edge("B", "C", 0.0, 1.0, None),
            exchange_edge("C", "D", 0.0, 1.0, None),
        ],
    };
    let mut tvg = Tvg::new();
    tvg.add_edges_from_json(payload).unwrap();
    let start = tvg.find_node("A".to_string()).unwrap();
    let (sender, receiver) = bounded(50);
    let count = tvg
        .tvg_bfs(start, vec![start], &sender, |_: &String| false, Some(1))
        .unwrap();
    drop(sender);
    assert_eq!(count, 0);
    assert!(receiver.recv().is_err());
}

#[test]
fn bfs_concrete_scenario_emits_one_two_hop_path() {
    let mut tvg = Tvg::new();
    tvg.add_edges_from_json(four_node_payload()).unwrap();
    let start = tvg.find_node("Node1".to_string()).unwrap();
    let (sender, receiver) = bounded(50);
    let count = tvg
        .tvg_bfs(
            start,
            vec![start],
            &sender,
            |label: &String| label.as_str() == "Node4",
            None,
        )
        .unwrap();
    drop(sender);
    assert_eq!(count, 1);

    let results: Vec<(String, TvgPath)> = receiver.iter().collect();
    assert_eq!(results.len(), 1);
    let (name, path) = &results[0];
    assert_eq!(name.as_str(), "Node4");
    // Two hops: Node1 -> Node2 (a slot holding 2 interval edges, the record
    // was inserted twice) and Node2 -> Node4 (1 interval edge).
    assert_eq!(path.edges.len(), 2);
    assert_eq!(path.edges[0].edges.len(), 2);
    assert_eq!(path.edges[1].edges.len(), 1);
}

#[test]
fn explore_with_flags_matches_streamed_results() {
    let mut tvg = Tvg::new();
    tvg.add_edges_from_json(four_node_payload()).unwrap();
    let start = tvg.find_node("Node1".to_string()).unwrap();
    let flags = tvg.match_flags(|label: &String| label.contains("Node4"));
    assert_eq!(flags, vec![false, false, false, true]);
    let results = tvg.explore_with_flags(start, vec![start], &flags, 3);
    assert_eq!(results.len(), 1);
    assert_eq!(results[0].0, "Node4");
}

#[test]
fn lookup_misses_are_not_found_never_fatal() {
    let mut tvg = Tvg::new();
    tvg.add_edges_from_json(four_node_payload()).unwrap();
    assert_eq!(tvg.find_node("Ghost".to_string()), None);
    assert_eq!(tvg.find_edge("Node1".to_string(), "Ghost".to_string()), None);
    // Two valid but unconnected nodes are also just "not found".
    assert_eq!(tvg.find_edge("Node3".to_string(), "Node4".to_string()), None);
}

#[test]
fn neighbors_outgoing_in_insertion_order() {
    let mut tvg = Tvg::new();
    tvg.add_edges_from_json(four_node_payload()).unwrap();
    let n1 = tvg.find_node("Node1".to_string()).unwrap();
    let n2 = tvg.find_node("Node2".to_string()).unwrap();
    let n3 = tvg.find_node("Node3".to_string()).unwrap();
    let n4 = tvg.find_node("Node4".to_string()).unwrap();
    assert_eq!(tvg.neighbors_outgoing(n1), vec![n2]);
    assert_eq!(tvg.neighbors_outgoing(n2), vec![n3, n4]);
    assert_eq!(tvg.neighbors_outgoing(n4), Vec::<usize>::new());
}

#[test]
fn closed_channel_terminates_the_worker() {
    let mut tvg = Tvg::new();
    tvg.add_edges_from_json(four_node_payload()).unwrap();
    let start = tvg.find_node("Node1".to_string()).unwrap();
    let (sender, receiver) = bounded(50);
    drop(receiver);
    let r = tvg.tvg_bfs(
        start,
        vec![start],
        &sender,
        |label: &String| label.contains("Node4"),
        None,
    );
    assert_eq!(r, Err(ChannelClosed));
}

#[test]
fn exported_records_carry_payload_bits_exactly() {
    let mut tvg = Tvg::new();
    let payload = JsonTvgData {
        nodes: vec!["A".to_string(), "B".to_string()],
        edges: vec![exchange_edge("A", "B", 0.25, 1.75, Some(52.5))],
    };
    tvg.add_edges_from_json(payload).unwrap();
    let out = tvg.export_to_json();
    assert_eq!(out.edges.len(), 1);
    let rec = &out.edges[0];
    assert_eq!(rec.from, "A");
    assert_eq!(rec.to, "B");
    assert_eq!(f32::from_bits(rec.start), 0.25);
    assert_eq!(f32::from_bits(rec.end), 1.75);
    assert_eq!(rec.data.map(f32::from_bits), Some(52.5));
}
