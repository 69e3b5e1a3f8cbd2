use webgraph::edge::{NodeDatum, RelFlags, StoredEdge};
use webgraph::merge::{EdgeMerger, MergeIter, MergeNode, MergeSegmentOrd};
use webgraph::segment::EdgeRange;

#[test]
fn test_merge_nodes() {
    let a = vec![
        MergeNode::new(1u64.into(), EdgeRange::new(0..10, 1), 0..10),
        MergeNode::new(4u64.into(), EdgeRange::new(0..10, 2), 0..10),
        MergeNode::new(5u64.into(), EdgeRange::new(0..10, 3), 0..10),
    ];

    let b = vec![
        MergeNode::new(2u64.into(), EdgeRange::new(0..10, 4), 0..10),
        MergeNode::new(3u64.into(), EdgeRange::new(0..10, 5), 0..10),
        MergeNode::new(5u64.into(), EdgeRange::new(0..10, 3), 0..10),
    ];

    let mut merger = MergeIter::new(vec![a, b]);
    let mut buf = Vec::new();

    assert!(merger.advance(&mut buf));
    assert_eq!(buf.len(), 1);
    assert_eq!(buf[0].id(), 1u64.into());

    assert!(merger.advance(&mut buf));
    assert_eq!(buf.len(), 1);
    assert_eq!(buf[0].id(), 2u64.into());

    assert!(merger.advance(&mut buf));
    assert_eq!(buf.len(), 1);
    assert_eq!(buf[0].id(), 3u64.into());

    assert!(merger.advance(&mut buf));
    assert_eq!(buf.len(), 1);
    assert_eq!(buf[0].id(), 4u64.into());

    assert!(merger.advance(&mut buf));
    assert_eq!(buf.len(), 2);
    assert_eq!(buf[0].id(), 5u64.into());
    assert_eq!(buf[1].id(), 5u64.into());

    assert!(!merger.advance(&mut buf));
}

#[test]
fn test_datum_merge() {
    let a = vec![
        StoredEdge::new(NodeDatum::new(1u64.into(), 1), RelFlags::default()),
        StoredEdge::new(NodeDatum::new(2u64.into(), 4), RelFlags::default()),
        StoredEdge::new(NodeDatum::new(3u64.into(), 5), RelFlags::default()),
    ];

    let b = vec![
        StoredEdge::new(NodeDatum::new(4u64.into(), 2), RelFlags::default()),
        StoredEdge::new(NodeDatum::new(5u64.into(), 3), RelFlags::default()),
        StoredEdge::new(NodeDatum::new(3u64.into(), 5), RelFlags::default()),
    ];

    let mut merger = EdgeMerger::new(vec![a, b]);

    assert_eq!(merger.next().unwrap().other.sort_key(), 1);
    assert_eq!(merger.next().unwrap().other.sort_key(), 2);
    assert_eq!(merger.next().unwrap().other.sort_key(), 3);
    assert_eq!(merger.next().unwrap().other.sort_key(), 4);
    assert_eq!(merger.next().unwrap().other.sort_key(), 5);
    assert!(merger.next().is_none());
}

#[test]
fn merge_groups_carry_the_position_of_their_segment() {
    let a = vec![MergeNode::new(7u64.into(), EdgeRange::new(0..1, 1), 0..1)];
    let b = vec![MergeNode::new(7u64.into(), EdgeRange::new(3..5, 2), 3..5)];
    let mut merger = MergeIter::new(vec![a, b]);
    let mut buf = Vec::new();
    assert!(merger.advance(&mut buf));
    assert_eq!(buf.len(), 2);
    assert_eq!(buf[0].ord().as_usize(), 0);
    assert_eq!(buf[1].ord().as_usize(), 1);
    assert_eq!(buf[1].range().count(), 2);
    assert_eq!(buf[1].labels(), 3..5);
    assert_eq!(MergeSegmentOrd::new(4).as_usize(), 4);
    assert!(!merger.advance(&mut buf));
    assert!(buf.is_empty());
}

#[test]
fn edge_merger_keeps_the_edge_of_the_first_input() {
    let shared = NodeDatum::new(3u64.into(), 5);
    let a = vec![StoredEdge::with_label(shared, "first".to_string(), RelFlags::tag())];
    let b = vec![StoredEdge::with_label(shared, "second".to_string(), RelFlags::default())];
    let mut merger = EdgeMerger::new(vec![a, b]);
    let edge = merger.next().unwrap();
    assert_eq!(edge.label, "first");
    assert_eq!(edge.rel, RelFlags::tag());
    assert!(merger.next().is_none());
}

#[test]
fn edge_merger_yields_one_edge_for_each_sort_key() {
    let a = vec![StoredEdge::new(NodeDatum::new(1u64.into(), 5), RelFlags::default())];
    let b = vec![StoredEdge::new(NodeDatum::new(2u64.into(), 5), RelFlags::default())];
    let mut merger = EdgeMerger::new(vec![a, b]);
    assert_eq!(merger.next().unwrap().other.node(), 1u64.into());
    assert!(merger.next().is_none());
}

#[test]
fn edge_merger_yields_the_least_neighbour_of_a_sort_key() {
    let edge = |id: u64, key: u64| StoredEdge::new(NodeDatum::new(id.into(), key), RelFlags::default());
    let a = vec![edge(7, 5), edge(8, 5), edge(1, 6)];
    let b = vec![edge(2, 5), edge(9, 6)];
    let c = vec![edge(3, 4), edge(2, 5)];
    let mut merger = EdgeMerger::new(vec![a, b, c]);
    let mut out = Vec::new();
    while let Some(e) = merger.next() {
        out.push((e.other.sort_key(), e.other.node()));
    }
    assert_eq!(out, vec![(4, 3u64.into()), (5, 2u64.into()), (6, 1u64.into())]);
}

#[test]
fn edge_merger_sort_keys_rise_strictly() {
    let edge = |id: u64, key: u64| StoredEdge::new(NodeDatum::new(id.into(), key), RelFlags::default());
    let a = vec![edge(1, 2), edge(2, 2), edge(3, 7)];
    let b = vec![edge(9, 1), edge(4, 2), edge(5, 8)];
    let c = vec![edge(6, 7)];
    let mut merger = EdgeMerger::new(vec![a, b, c]);
    let mut out = Vec::new();
    while let Some(e) = merger.next() {
        out.push((e.other.sort_key(), e.other.node()));
    }
    assert_eq!(
        out,
        vec![(1, 9u64.into()), (2, 1u64.into()), (7, 3u64.into()), (8, 5u64.into())]
    );
}

#[test]
fn fusing_adjacency_lists_runs_the_merger_to_the_end() {
    let edge = |id: u64, key: u64, label: &str| {
        StoredEdge::with_label(NodeDatum::new(id.into(), key), label.to_string(), RelFlags::default())
    };
    let lists = vec![
        vec![edge(4, 1, "a"), edge(6, 3, "b"), edge(6, 3, "c")],
        vec![],
        vec![edge(5, 3, "d"), edge(7, 9, "e")],
        vec![edge(5, 3, "f")],
    ];
    let fused = webgraph::fusion::fuse_edge_lists(lists);
    let seen: Vec<(u64, u64, String)> = fused
        .iter()
        .map(|e| (e.other.sort_key(), e.other.node().as_u64(), e.label.clone()))
        .collect();
    assert_eq!(
        seen,
        vec![(1, 4, "a".to_string()), (3, 5, "d".to_string()), (9, 7, "e".to_string())]
    );
    assert!(webgraph::fusion::fuse_edge_lists(Vec::<Vec<StoredEdge<String>>>::new()).is_empty());
}
