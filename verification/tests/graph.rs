use std::collections::{HashMap, VecDeque};

use webgraph::edge::{EdgeLimit, RelFlags, MAX_LABEL_LENGTH};
use webgraph::graph::{GraphError, Webgraph};
use webgraph::node::{Node, NodeID};
use webgraph::ranks::RankStore;
use webgraph::segment::Compression;
use webgraph::writer::WebgraphWriter;

fn test_edges() -> Vec<(Node, Node, String)> {
    vec![
        (Node::from("A"), Node::from("B"), String::new()),
        (Node::from("B"), Node::from("C"), String::new()),
        (Node::from("A"), Node::from("C"), String::new()),
        (Node::from("C"), Node::from("A"), String::new()),
        (Node::from("D"), Node::from("C"), String::new()),
    ]
}

fn test_graph() -> Webgraph {
    //     ┌------┐
    //     │      │
    // ┌───A◄─┐  │
    // │       │  │
    // ▼      │  │
    // B─────►C◄┘
    //        ▲
    //        │
    //        │
    //        D
    let mut graph = WebgraphWriter::new(Compression::default(), None);

    for (from, to, label) in test_edges() {
        graph.insert(from, to, label, RelFlags::default());
    }

    graph.commit().unwrap();

    graph.finalize().unwrap()
}

fn single_edge_graph(from: &str, to: &str) -> Webgraph {
    let mut wrt = WebgraphWriter::new(Compression::default(), None);
    wrt.insert(Node::from(from), Node::from(to), String::new(), RelFlags::default());
    wrt.finalize().unwrap()
}

/// Breadth-first distances from `source`, along the edges or against them.
fn bfs(graph: &Webgraph, source: Node, reversed: bool) -> HashMap<String, u64> {
    let mut distances: HashMap<NodeID, u64> = HashMap::new();
    let mut queue = VecDeque::new();
    let start = source.id();
    queue.push_back((start, 0u64));
    let mut seen = vec![start];
    while let Some((node, dist)) = queue.pop_front() {
        let edges = if reversed {
            graph.raw_ingoing_edges(&node, EdgeLimit::Unlimited)
        } else {
            graph.raw_outgoing_edges(&node, EdgeLimit::Unlimited)
        };
        for edge in edges {
            let next = if reversed { edge.from } else { edge.to };
            if !seen.contains(&next) {
                seen.push(next);
                distances.insert(next, dist + 1);
                queue.push_back((next, dist + 1));
            }
        }
    }
    distances
        .into_iter()
        .map(|(id, dist)| (graph.id2node(&id).unwrap().as_str().to_string(), dist))
        .collect()
}

fn distances(graph: &Webgraph, source: Node) -> HashMap<String, u64> {
    bfs(graph, source, false)
}

fn reversed_distances(graph: &Webgraph, source: Node) -> HashMap<String, u64> {
    bfs(graph, source, true)
}

#[test]
fn distance_calculation() {
    let graph = test_graph();

    let distances = distances(&graph, Node::from("D"));

    assert_eq!(distances.get(Node::from("C").as_str()), Some(&1));
    assert_eq!(distances.get(Node::from("A").as_str()), Some(&2));
    assert_eq!(distances.get(Node::from("B").as_str()), Some(&3));
}

#[test]
fn nonexisting_node() {
    let graph = test_graph();
    assert_eq!(distances(&graph, Node::from("E")).len(), 0);
    assert_eq!(reversed_distances(&graph, Node::from("E")).len(), 0);
}

#[test]
fn reversed_distance_calculation() {
    let graph = test_graph();

    let distances = reversed_distances(&graph, Node::from("D"));

    assert_eq!(distances.get(Node::from("C").as_str()), None);
    assert_eq!(distances.get(Node::from("A").as_str()), None);
    assert_eq!(distances.get(Node::from("B").as_str()), None);

    let distances = reversed_distances(&graph, Node::from("A"));

    assert_eq!(distances.get(Node::from("C").as_str()), Some(&1));
    assert_eq!(distances.get(Node::from("D").as_str()), Some(&2));
    assert_eq!(distances.get(Node::from("B").as_str()), Some(&2));
}

#[test]
fn merge() {
    let mut graphs = Vec::new();
    for (from, to) in &[
        ("A", "B"),
        ("B", "C"),
        ("C", "D"),
        ("D", "E"),
        ("E", "F"),
        ("F", "G"),
        ("G", "H"),
    ] {
        graphs.push(single_edge_graph(from, to));
    }

    let mut graph = graphs.pop().unwrap();

    for other in graphs {
        graph.merge(other).unwrap();
    }

    graph.optimize_read();

    assert_eq!(
        distances(&graph, Node::from("A")).get(Node::from("H").as_str()),
        Some(&7)
    );

    graph.merge_all_segments(Compression::default()).unwrap();

    assert_eq!(
        distances(&graph, Node::from("A")).get(Node::from("H").as_str()),
        Some(&7)
    );
}

#[test]
fn merge_cycle() {
    let mut graphs = Vec::new();
    for (from, to) in &[("A", "B"), ("B", "B"), ("B", "C"), ("C", "A")] {
        graphs.push(single_edge_graph(from, to));
    }

    let mut graph = graphs.pop().unwrap();

    for other in graphs {
        graph.merge(other).unwrap();
    }

    assert_eq!(
        distances(&graph, Node::from("A")).get(Node::from("C").as_str()),
        Some(&2)
    );

    graph.merge_all_segments(Compression::default()).unwrap();

    assert_eq!(
        distances(&graph, Node::from("A")).get(Node::from("C").as_str()),
        Some(&2)
    );
}

#[test]
fn cap_label_length() {
    let mut writer = WebgraphWriter::new(Compression::default(), None);

    writer.insert(
        Node::from("A"),
        Node::from("B"),
        "a".repeat(MAX_LABEL_LENGTH + 1),
        RelFlags::default(),
    );

    let graph = writer.finalize().unwrap();

    assert_eq!(graph.num_segments(), 1);
    assert_eq!(
        graph.outgoing_edges(Node::from("A"), EdgeLimit::Unlimited)[0].label,
        "a".repeat(MAX_LABEL_LENGTH)
    );
}

#[test]
fn test_edge_limits() {
    let graph = test_graph();

    assert_eq!(
        graph
            .outgoing_edges(Node::from("A"), EdgeLimit::Unlimited)
            .len(),
        2
    );

    assert_eq!(
        graph
            .outgoing_edges(Node::from("A"), EdgeLimit::Limit(1))
            .len(),
        1
    );

    let mut graphs = Vec::new();
    for (from, to) in &[("A", "B"), ("A", "C")] {
        graphs.push(single_edge_graph(from, to));
    }

    let mut graph = graphs.pop().unwrap();

    for other in graphs {
        graph.merge(other).unwrap();
    }

    assert_eq!(
        graph
            .outgoing_edges(Node::from("A"), EdgeLimit::Unlimited)
            .len(),
        2
    );

    assert_eq!(
        graph
            .outgoing_edges(Node::from("A"), EdgeLimit::Limit(1))
            .len(),
        1
    );

    graph.optimize_read();

    assert_eq!(
        graph
            .outgoing_edges(Node::from("A"), EdgeLimit::Unlimited)
            .len(),
        2
    );

    assert_eq!(
        graph
            .outgoing_edges(Node::from("A"), EdgeLimit::Limit(1))
            .len(),
        1
    );
}

#[test]
fn test_rel_flags() {
    let mut writer = WebgraphWriter::new(Compression::default(), None);

    writer.insert(
        Node::from("A"),
        Node::from("B"),
        String::new(),
        RelFlags::is_in_footer() | RelFlags::tag(),
    );

    let graph = writer.finalize().unwrap();

    assert_eq!(
        graph.raw_outgoing_edges(&Node::from("A").id(), EdgeLimit::Unlimited)[0].rel,
        RelFlags::is_in_footer() | RelFlags::tag(),
    );
}

fn ranked(ranks: &[(&str, u64)]) -> RankStore {
    let mut store = RankStore::new();
    for (host, rank) in ranks {
        store.insert(Node::from(*host).into_host().id(), *rank);
    }
    store
}

#[test]
fn limit_takes_the_smallest_sort_key_across_segments() {
    let ranks = [("b.example", 7), ("c.example", 3)];
    let mut first = WebgraphWriter::new(Compression::default(), Some(ranked(&ranks)));
    first.insert(Node::from("a.example"), Node::from("b.example"), "to b".to_string(), RelFlags::default());
    let mut graph = first.finalize().unwrap();
    let mut second = WebgraphWriter::new(Compression::default(), Some(ranked(&ranks)));
    second.insert(Node::from("a.example"), Node::from("c.example"), "to c".to_string(), RelFlags::default());
    graph.merge(second.finalize().unwrap()).unwrap();
    assert_eq!(graph.num_segments(), 2);

    let check = |graph: &Webgraph| {
        let top = graph.outgoing_edges(Node::from("a.example"), EdgeLimit::Limit(1));
        assert_eq!(top.len(), 1);
        assert_eq!(top[0].to.as_str(), "c.example");
        assert_eq!(top[0].from.as_str(), "a.example");
        assert_eq!(top[0].label, "to c");
        let all = graph.outgoing_edges(Node::from("a.example"), EdgeLimit::Unlimited);
        assert_eq!(all.len(), 2);
        assert_eq!(all[1].to.as_str(), "b.example");
    };
    check(&graph);
    graph.optimize_read();
    check(&graph);
    graph.merge_all_segments(Compression::default()).unwrap();
    assert_eq!(graph.num_segments(), 1);
    check(&graph);
}

#[test]
fn an_edge_in_two_segments_is_answered_once() {
    let mut graph = single_edge_graph("A", "B");
    graph.merge(single_edge_graph("A", "B")).unwrap();
    assert_eq!(graph.edges().len(), 2);
    assert_eq!(graph.raw_outgoing_edges(&Node::from("A").id(), EdgeLimit::Unlimited).len(), 1);
    assert_eq!(graph.raw_ingoing_edges(&Node::from("B").id(), EdgeLimit::Unlimited).len(), 1);
    graph.merge_all_segments(Compression::default()).unwrap();
    assert_eq!(graph.edges().len(), 1);
    assert_eq!(graph.raw_outgoing_edges(&Node::from("A").id(), EdgeLimit::Unlimited).len(), 1);
}

#[test]
fn merge_refuses_a_segment_id_twice() {
    let mut first = WebgraphWriter::new(Compression::default(), None);
    first.insert(Node::from("A"), Node::from("B"), String::new(), RelFlags::default());
    first.commit_as("one".to_string()).unwrap();
    let mut graph = first.finalize().unwrap();
    let mut second = WebgraphWriter::new(Compression::default(), None);
    second.insert(Node::from("C"), Node::from("D"), String::new(), RelFlags::default());
    second.commit_as("one".to_string()).unwrap();
    let other = second.finalize().unwrap();
    assert_eq!(graph.merge(other), Err(GraphError::DuplicateSegment));
    assert_eq!(graph.num_segments(), 1);
    assert_eq!(graph.nodes().len(), 2);
}

#[test]
fn every_endpoint_resolves_to_a_node_of_its_id() {
    let graph = test_graph();
    for edge in graph.edges() {
        for id in [edge.from, edge.to] {
            let node = graph.id2node(&id).unwrap();
            assert_eq!(node.id(), id);
        }
    }
    assert_eq!(graph.nodes().len(), 4);
    assert_eq!(graph.estimate_num_nodes(), 4);
    assert_eq!(graph.node_ids().len(), 4);
    assert!(graph.id2node(&Node::from("E").id()).is_none());
}

#[test]
fn random_nodes_are_sources_and_distinct() {
    let graph = test_graph();
    let sources: Vec<NodeID> = ["A", "B", "C", "D"].iter().map(|n| Node::from(*n).id()).collect();
    for num in 0..6 {
        let picked = graph.random_nodes_with_outgoing(num);
        assert_eq!(picked.len(), num.min(4));
        for (i, id) in picked.iter().enumerate() {
            assert!(sources.contains(id));
            assert!(!picked[..i].contains(id));
        }
    }
}

#[test]
fn pages_by_host_lists_the_pages_of_all_segments() {
    let mut graph = single_edge_graph("a.example/one", "b.example/x");
    graph.merge(single_edge_graph("a.example/two", "a.example/one")).unwrap();
    let host = Node::from("a.example").id();
    let mut expected = vec![Node::from("a.example/one").id(), Node::from("a.example/two").id()];
    expected.sort();
    assert_eq!(graph.pages_by_host(&host), expected);
    assert_eq!(graph.pages_by_host(&Node::from("c.example").id()), vec![]);
}

#[test]
fn a_node_without_a_rank_is_keyed_by_its_id() {
    let a = Node::from("a.example").id();
    let page = Node::from("b.example/page").id();
    let graph = single_edge_graph("a.example", "b.example/page");
    let out = graph.segments()[0].outgoing_edges_with_label(&a, &EdgeLimit::Unlimited);
    assert_eq!(out.len(), 1);
    assert_eq!(out[0].other.node(), page);
    assert_eq!(out[0].other.sort_key(), page.as_u64());

    let ranks = [("b.example", 7)];
    let mut writer = WebgraphWriter::new(Compression::default(), Some(ranked(&ranks)));
    writer.insert(Node::from("a.example"), Node::from("b.example/page"), String::new(), RelFlags::default());
    writer.insert(Node::from("b.example/page"), Node::from("a.example"), String::new(), RelFlags::default());
    let graph = writer.finalize().unwrap();
    let out = graph.segments()[0].outgoing_edges_with_label(&a, &EdgeLimit::Unlimited);
    assert_eq!(out[0].other.sort_key(), 7);
    let back = graph.segments()[0].outgoing_edges_with_label(&page, &EdgeLimit::Unlimited);
    assert_eq!(back[0].other.sort_key(), a.as_u64());
    let into = graph.segments()[0].ingoing_edges_with_label(&a, &EdgeLimit::Unlimited);
    assert_eq!(into[0].other.sort_key(), 7);
}

#[test]
fn compaction_keeps_every_neighbour_of_graphs_without_ranks() {
    let mut graph = single_edge_graph("A", "B");
    graph.merge(single_edge_graph("A", "C")).unwrap();
    graph.merge(single_edge_graph("A", "D")).unwrap();
    graph.merge(single_edge_graph("B", "D")).unwrap();
    let a = Node::from("A").id();
    let d = Node::from("D").id();
    let out = graph.raw_outgoing_edges(&a, EdgeLimit::Unlimited);
    let into = graph.raw_ingoing_edges(&d, EdgeLimit::Unlimited);
    assert_eq!(out.len(), 3);
    assert_eq!(into.len(), 2);
    graph.merge_all_segments(Compression::default()).unwrap();
    assert_eq!(graph.num_segments(), 1);
    let neighbours = |edges: &[webgraph::edge::Edge<()>], to: bool| -> Vec<NodeID> {
        edges.iter().map(|e| if to { e.to } else { e.from }).collect()
    };
    assert_eq!(
        neighbours(&graph.raw_outgoing_edges(&a, EdgeLimit::Unlimited), true),
        neighbours(&out, true)
    );
    assert_eq!(
        neighbours(&graph.raw_ingoing_edges(&d, EdgeLimit::Unlimited), false),
        neighbours(&into, false)
    );
}

#[test]
fn neighbours_of_one_sort_key_are_one_edge_after_compaction() {
    let ranks = [("b.example", 7)];
    let mut first = WebgraphWriter::new(Compression::default(), Some(ranked(&ranks)));
    first.insert(Node::from("a.example"), Node::from("b.example/one"), String::new(), RelFlags::default());
    let mut graph = first.finalize().unwrap();
    let mut second = WebgraphWriter::new(Compression::default(), Some(ranked(&ranks)));
    second.insert(Node::from("a.example"), Node::from("b.example/two"), String::new(), RelFlags::default());
    graph.merge(second.finalize().unwrap()).unwrap();
    let a = Node::from("a.example").id();
    assert_eq!(graph.raw_outgoing_edges(&a, EdgeLimit::Unlimited).len(), 2);
    graph.merge_all_segments(Compression::default()).unwrap();
    let out = graph.raw_outgoing_edges(&a, EdgeLimit::Unlimited);
    assert_eq!(out.len(), 1);
    let least = Node::from("b.example/one").id().min(Node::from("b.example/two").id());
    assert_eq!(out[0].to, least);
}

#[test]
fn both_directions_answer_with_the_same_edges() {
    let names = ["A", "B", "C", "D", "E"];
    let check = |graph: &Webgraph| {
        for u in names {
            for v in names {
                let (u, v) = (Node::from(u).id(), Node::from(v).id());
                let leaves = graph
                    .raw_outgoing_edges(&u, EdgeLimit::Unlimited)
                    .iter()
                    .any(|e| e.to == v);
                let arrives = graph
                    .raw_ingoing_edges(&v, EdgeLimit::Unlimited)
                    .iter()
                    .any(|e| e.from == u);
                assert_eq!(leaves, arrives);
            }
        }
    };
    let mut graph = test_graph();
    check(&graph);
    graph.merge(single_edge_graph("D", "E")).unwrap();
    graph.merge(single_edge_graph("A", "B")).unwrap();
    check(&graph);
    graph.merge_all_segments(Compression::default()).unwrap();
    check(&graph);
    let a = Node::from("A").id();
    assert_eq!(graph.raw_outgoing_edges(&a, EdgeLimit::Unlimited).len(), 2);
}

#[test]
fn a_new_writer_hands_its_graph_over() {
    let writer = WebgraphWriter::new(Compression::default(), None);
    let graph = writer.finalize().unwrap();
    assert_eq!(graph.num_segments(), 0);
    assert!(graph.meta().comitted_segments.is_empty());

    let mut writer = WebgraphWriter::new(Compression::default(), None);
    writer.insert(Node::from("A"), Node::from("B"), String::new(), RelFlags::default());
    writer.commit().unwrap();
    writer.commit().unwrap();
    writer.insert(Node::from("B"), Node::from("C"), String::new(), RelFlags::default());
    let graph = writer.finalize().unwrap();
    assert_eq!(graph.num_segments(), 2);
    assert_eq!(graph.meta().comitted_segments.len(), 2);
}
