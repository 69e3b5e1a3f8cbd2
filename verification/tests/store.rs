use webgraph::builder::InsertableEdge;
use webgraph::edge::{EdgeLimit, NodeDatum, PageEntry, RelFlags, StoredEdge, MAX_LABEL_LENGTH};
use webgraph::fuse::fuse_all;
use webgraph::graph::{GraphError, Meta, Webgraph};
use webgraph::heap::{MinHeap, SortKey};
use webgraph::id2node::Id2NodeDb;
use webgraph::ingest::{batches, crosses_domains, local_batches, master_batches};
use webgraph::merge::MergeNode;
use webgraph::node::{Node, NodeID};
use webgraph::ranks::RankStore;
use webgraph::segment::{Adjacency, Compression, EdgeRange, Segment, StoreError};
use webgraph::sort::{select, sort_keys, sorted_distinct};
use webgraph::writer::{cap_label, WebgraphWriter};

fn datum(id: u64, sort_key: u64) -> NodeDatum {
    NodeDatum::new(NodeID(id), sort_key)
}

fn insertable(from: u64, to: (u64, u64), label: &str) -> InsertableEdge {
    InsertableEdge {
        from: datum(from, 0),
        to: datum(to.0, to.1),
        label: label.to_string(),
        rel: RelFlags::default(),
    }
}

fn neighbours(list: &[StoredEdge<String>]) -> Vec<(u64, u64, String)> {
    list.iter()
        .map(|e| (e.other.sort_key(), e.other.node().as_u64(), e.label.clone()))
        .collect()
}

#[test]
fn heap_hands_out_keys_in_rising_order() {
    let mut heap = MinHeap::new();
    assert!(heap.is_empty());
    assert_eq!(heap.peek(), None);
    assert_eq!(heap.pop(), None);
    for (k0, k1, k2, slot) in [(3, 0, 0, 0), (1, 2, 0, 1), (1, 1, 9, 2), (1, 1, 9, 1), (2, 0, 0, 4)] {
        heap.push(SortKey::new(k0, k1, k2, slot));
    }
    assert_eq!(heap.len(), 5);
    assert_eq!(heap.peek(), Some(SortKey::new(1, 1, 9, 1)));
    let mut out = Vec::new();
    while let Some(key) = heap.pop() {
        out.push((key.k0, key.k1, key.k2, key.slot));
    }
    assert_eq!(out, vec![(1, 1, 9, 1), (1, 1, 9, 2), (1, 2, 0, 1), (2, 0, 0, 4), (3, 0, 0, 0)]);
}

#[test]
fn keys_are_sorted_by_their_parts_in_turn() {
    let keys = vec![
        SortKey::new(2, 0, 0, 0),
        SortKey::new(1, 5, 0, 1),
        SortKey::new(1, 5, 0, 0),
        SortKey::new(1, 4, 7, 3),
        SortKey::new(2, 0, 0, 0),
    ];
    let sorted = sort_keys(&keys);
    assert_eq!(
        sorted,
        vec![
            SortKey::new(1, 4, 7, 3),
            SortKey::new(1, 5, 0, 0),
            SortKey::new(1, 5, 0, 1),
            SortKey::new(2, 0, 0, 0),
            SortKey::new(2, 0, 0, 0),
        ]
    );
    assert!(SortKey::new(1, 5, 0, 0).lt(&SortKey::new(1, 5, 0, 1)));
    assert!(!SortKey::new(1, 5, 0, 1).lt(&SortKey::new(1, 5, 0, 1)));
}

#[test]
fn selection_takes_the_first_datum_of_each_id_by_sort_key() {
    // ids 7 and 8 occur twice; their first data count
    let data = vec![datum(7, 30), datum(8, 10), datum(7, 5), datum(9, 20), datum(8, 40), datum(6, 20)];
    assert_eq!(select(&data), vec![1, 5, 3, 0]);
    assert_eq!(select(&Vec::new()), Vec::<usize>::new());
    assert_eq!(sorted_distinct(&vec![5, 1, 5, 3, 1]), vec![1, 3, 5]);
}

#[test]
fn fusing_keeps_the_first_of_equal_keys() {
    let a = vec![PageEntry { host: NodeID(1), page: NodeID(2) }, PageEntry { host: NodeID(3), page: NodeID(1) }];
    let b = vec![PageEntry { host: NodeID(1), page: NodeID(1) }, PageEntry { host: NodeID(1), page: NodeID(2) }];
    let fused: Vec<(u64, u64)> = fuse_all(vec![a, b]).into_iter().map(|e| (e.host.0, e.page.0)).collect();
    assert_eq!(fused, vec![(1, 1), (1, 2), (3, 1)]);
    assert_eq!(fuse_all(Vec::<Vec<PageEntry>>::new()), vec![]);
}

#[test]
fn edge_limit_cuts_to_the_first() {
    assert_eq!(EdgeLimit::Unlimited.apply(vec![1, 2, 3]), vec![1, 2, 3]);
    assert_eq!(EdgeLimit::Limit(2).apply(vec![1, 2, 3]), vec![1, 2]);
    assert_eq!(EdgeLimit::Limit(0).apply(vec![1, 2, 3]), Vec::<i32>::new());
    assert_eq!(EdgeLimit::Limit(5).apply(vec![1, 2, 3]), vec![1, 2, 3]);
    assert_eq!(EdgeLimit::Limit(5).count(3), 3);
    assert_eq!(EdgeLimit::Limit(2).count(3), 2);
    assert_eq!(EdgeLimit::Unlimited.count(3), 3);
}

#[test]
fn rel_flags_are_sets_of_bits() {
    let flags = RelFlags::nofollow() | RelFlags::sponsored();
    assert_eq!(flags.bits(), 8 | 16);
    assert!(flags.contains(RelFlags::nofollow()));
    assert!(!flags.contains(RelFlags::tag()));
    assert!(flags.contains(RelFlags::empty()));
    assert_eq!(flags.union(RelFlags::ugc()), RelFlags(8 | 16 | 64));
    assert_eq!(RelFlags::default(), RelFlags::empty());
    assert_eq!(RelFlags::author().bits() | RelFlags::is_in_navigation().bits() | RelFlags::is_in_footer().bits(), 7);
}

#[test]
fn data_and_edges_compare_by_sort_key_then_id() {
    assert!(datum(9, 1) < datum(1, 2));
    assert!(datum(1, 2) < datum(2, 2));
    assert!(datum(1, 2).lt(&datum(2, 2)));
    assert!(!datum(2, 2).lt(&datum(2, 2)));
    let a = StoredEdge::with_label(datum(1, 2), "a".to_string(), RelFlags::tag());
    let b = StoredEdge::with_label(datum(1, 2), "b".to_string(), RelFlags::default());
    assert!(a == b);
    assert!(a <= b && b <= a);
    let c = StoredEdge::with_label(datum(2, 2), "a".to_string(), RelFlags::tag());
    assert!(a != c);
    assert!(a < c);
    let m = MergeNode::new(NodeID(3), EdgeRange::new(0..1, 1), 0..1);
    let n = MergeNode::new(NodeID(3), EdgeRange::new(5..9, 4), 5..9);
    assert!(m == n);
    assert!(m < MergeNode::new(NodeID(4), EdgeRange::new(0..1, 1), 0..1));
    assert_eq!(n.range().range(), 5..9);
}

#[test]
fn node_map_keeps_the_last_node_of_an_id() {
    let mut db = Id2NodeDb::new();
    assert_eq!(db.estimate_num_keys(), 0);
    db.put(NodeID(5), Node::from("five"));
    db.put(NodeID(2), Node::from("two"));
    db.put(NodeID(5), Node::from("cinq"));
    assert_eq!(db.get(&NodeID(5)).unwrap().as_str(), "cinq");
    assert_eq!(db.get(&NodeID(2)).unwrap().as_str(), "two");
    assert!(db.get(&NodeID(3)).is_none());
    assert!(db.contains(&NodeID(2)));
    assert!(!db.contains(&NodeID(3)));
    assert_eq!(db.keys(), vec![NodeID(2), NodeID(5)]);
    assert_eq!(db.key_at(0), Some(NodeID(2)));
    assert_eq!(db.key_at(1), Some(NodeID(5)));
    assert_eq!(db.key_at(2), None);
    assert_eq!(db.row_at(1).unwrap().1.as_str(), "cinq");
    assert!(db.row_at(2).is_none());
    assert_eq!(db.estimate_num_keys(), 2);

    let mut other = Id2NodeDb::new();
    other.put(NodeID(5), Node::from("fuenf"));
    other.put(NodeID(9), Node::from("nine"));
    db.merge(other);
    let rows: Vec<(u64, String)> = db.iter().into_iter().map(|(id, node)| (id.0, node.as_str().to_string())).collect();
    assert_eq!(
        rows,
        vec![(2, "two".to_string()), (5, "fuenf".to_string()), (9, "nine".to_string())]
    );
}

#[test]
fn ranks_are_kept_by_host() {
    let mut ranks = RankStore::new();
    ranks.insert(NodeID(4), 40);
    ranks.insert(NodeID(1), 10);
    ranks.insert(NodeID(4), 41);
    assert_eq!(ranks.get(&NodeID(4)), Some(41));
    assert_eq!(ranks.get(&NodeID(1)), Some(10));
    assert_eq!(ranks.get(&NodeID(2)), None);
}

#[test]
fn labels_are_cut_at_a_character_within_the_byte_limit() {
    assert_eq!(cap_label("short".to_string()), "short");
    assert_eq!(cap_label("a".repeat(MAX_LABEL_LENGTH)), "a".repeat(MAX_LABEL_LENGTH));
    assert_eq!(cap_label("a".repeat(MAX_LABEL_LENGTH + 7)), "a".repeat(MAX_LABEL_LENGTH));
    // a character of two bytes does not fit into the last byte
    let label = format!("{}\u{e9}x", "a".repeat(MAX_LABEL_LENGTH - 1));
    assert_eq!(cap_label(label), "a".repeat(MAX_LABEL_LENGTH - 1));
    let wide = "\u{1F600}".repeat(MAX_LABEL_LENGTH);
    let capped = cap_label(wide);
    assert_eq!(capped.len(), MAX_LABEL_LENGTH / 4 * 4);
    assert_eq!(capped.chars().count(), MAX_LABEL_LENGTH / 4);
}

#[test]
fn a_segment_sorts_the_edges_of_each_node() {
    let edges = vec![
        insertable(2, (30, 7), "2 to 30"),
        insertable(1, (20, 9), "1 to 20"),
        insertable(1, (10, 9), "1 to 10, first"),
        insertable(1, (40, 3), "1 to 40"),
        insertable(1, (10, 9), "1 to 10, second"),
    ];
    let pages = vec![
        PageEntry { host: NodeID(5), page: NodeID(2) },
        PageEntry { host: NodeID(5), page: NodeID(1) },
        PageEntry { host: NodeID(5), page: NodeID(2) },
        PageEntry { host: NodeID(4), page: NodeID(9) },
    ];
    let segment = Segment::build("s".to_string(), Compression::Uncompressed, &edges, &pages).unwrap();
    assert_eq!(segment.id(), "s");
    assert_eq!(segment.compression(), Compression::Uncompressed);
    assert_eq!(
        neighbours(&segment.outgoing_edges_with_label(&NodeID(1), &EdgeLimit::Unlimited)),
        vec![
            (3, 40, "1 to 40".to_string()),
            (9, 10, "1 to 10, first".to_string()),
            (9, 10, "1 to 10, second".to_string()),
            (9, 20, "1 to 20".to_string()),
        ]
    );
    assert_eq!(segment.outgoing_edges(&NodeID(1), &EdgeLimit::Limit(2)).len(), 2);
    assert_eq!(segment.outgoing_edges(&NodeID(3), &EdgeLimit::Unlimited).len(), 0);
    assert_eq!(
        neighbours(&segment.ingoing_edges_with_label(&NodeID(10), &EdgeLimit::Unlimited)),
        vec![(0, 1, "1 to 10, first".to_string()), (0, 1, "1 to 10, second".to_string())]
    );
    assert_eq!(segment.ingoing_edges(&NodeID(30), &EdgeLimit::Unlimited).len(), 1);
    assert_eq!(segment.pages_by_host(&NodeID(5)), vec![NodeID(1), NodeID(2)]);
    assert_eq!(segment.pages_by_host(&NodeID(6)), vec![]);
    assert_eq!(segment.edges().len(), 5);
    assert!(segment.adjacency(true).contains(&NodeID(2)));
    assert!(!segment.adjacency(true).contains(&NodeID(10)));
    assert!(segment.adjacency(false).contains(&NodeID(10)));

    let other = Segment::build(
        "t".to_string(),
        Compression::Lz4,
        &vec![insertable(1, (10, 9), "again"), insertable(1, (15, 9), "1 to 15")],
        &vec![PageEntry { host: NodeID(5), page: NodeID(3) }],
    )
    .unwrap();
    let merged = Segment::merge(&vec![segment, other], Compression::Lz4, "u".to_string()).unwrap();
    assert_eq!(merged.id(), "u");
    // edges of one sort key count as one edge: the first to the least
    // neighbour is kept
    assert_eq!(
        neighbours(&merged.outgoing_edges_with_label(&NodeID(1), &EdgeLimit::Unlimited)),
        vec![(3, 40, "1 to 40".to_string()), (9, 10, "1 to 10, first".to_string())]
    );
    assert_eq!(merged.pages_by_host(&NodeID(5)), vec![NodeID(1), NodeID(2), NodeID(3)]);
    assert_eq!(merged.adjacency(true).nodes().len(), 2);
}

#[test]
fn compaction_keeps_the_least_neighbour_of_a_sort_key() {
    let first = Segment::build(
        "s".to_string(),
        Compression::Uncompressed,
        &vec![insertable(1, (30, 9), "1 to 30"), insertable(1, (20, 9), "1 to 20")],
        &vec![],
    )
    .unwrap();
    let second = Segment::build(
        "t".to_string(),
        Compression::Uncompressed,
        &vec![insertable(1, (10, 9), "1 to 10"), insertable(1, (5, 4), "1 to 5")],
        &vec![],
    )
    .unwrap();
    let merged = Segment::merge(&vec![first, second], Compression::Uncompressed, "u".to_string()).unwrap();
    assert_eq!(
        neighbours(&merged.outgoing_edges_with_label(&NodeID(1), &EdgeLimit::Unlimited)),
        vec![(4, 5, "1 to 5".to_string()), (9, 10, "1 to 10".to_string())]
    );
}

fn keyed(from: u64, to: u64, label: &str) -> InsertableEdge {
    InsertableEdge {
        from: datum(from, 100 - from),
        to: datum(to, 100 - to),
        label: label.to_string(),
        rel: RelFlags::default(),
    }
}

#[test]
fn compaction_keeps_neighbours_with_sort_keys_of_their_own() {
    let first = Segment::build(
        "s".to_string(),
        Compression::Uncompressed,
        &vec![keyed(1, 20, "1 to 20"), keyed(1, 10, "1 to 10"), keyed(2, 10, "2 to 10")],
        &vec![],
    )
    .unwrap();
    let second = Segment::build(
        "t".to_string(),
        Compression::Uncompressed,
        &vec![keyed(1, 10, "again"), keyed(1, 15, "1 to 15")],
        &vec![],
    )
    .unwrap();
    let merged = Segment::merge(&vec![first, second], Compression::Uncompressed, "u".to_string()).unwrap();
    assert_eq!(
        neighbours(&merged.outgoing_edges_with_label(&NodeID(1), &EdgeLimit::Unlimited)),
        vec![
            (80, 20, "1 to 20".to_string()),
            (85, 15, "1 to 15".to_string()),
            (90, 10, "1 to 10".to_string()),
        ]
    );
    assert_eq!(
        neighbours(&merged.ingoing_edges_with_label(&NodeID(10), &EdgeLimit::Unlimited)),
        vec![(98, 2, "2 to 10".to_string()), (99, 1, "1 to 10".to_string())]
    );
}

fn entry(node: u64, start: u64, end: u64, count: u32) -> MergeNode {
    MergeNode::new(NodeID(node), EdgeRange::new(start..end, count), start..end)
}

fn stored(id: u64, sort_key: u64) -> StoredEdge<String> {
    StoredEdge::with_label(datum(id, sort_key), String::new(), RelFlags::default())
}

#[test]
fn corrupt_parts_are_refused() {
    let edges = || vec![stored(1, 1), stored(2, 2), stored(3, 0)];
    assert!(Adjacency::open(vec![entry(1, 0, 2, 2), entry(5, 2, 3, 1)], edges()).is_ok());
    // the index does not rise
    assert_eq!(
        Adjacency::open(vec![entry(5, 0, 2, 2), entry(5, 2, 3, 1)], edges()).err(),
        Some(StoreError::Corrupt)
    );
    // an entry points behind the edge store
    assert_eq!(
        Adjacency::open(vec![entry(1, 0, 4, 4)], edges()).err(),
        Some(StoreError::Corrupt)
    );
    // an entry miscounts
    assert_eq!(
        Adjacency::open(vec![entry(1, 0, 2, 1)], edges()).err(),
        Some(StoreError::Corrupt)
    );
    // a list is not sorted
    assert_eq!(
        Adjacency::open(vec![entry(1, 0, 3, 3)], edges()).err(),
        Some(StoreError::Corrupt)
    );
    let open = |pages: Vec<PageEntry>| {
        Segment::open(
            "s".to_string(),
            Compression::Lz4,
            Adjacency::open(Vec::new(), Vec::new()).unwrap(),
            Adjacency::open(Vec::new(), Vec::new()).unwrap(),
            pages,
        )
    };
    assert!(open(vec![PageEntry { host: NodeID(1), page: NodeID(1) }]).is_ok());
    let twice = vec![PageEntry { host: NodeID(1), page: NodeID(1) }, PageEntry { host: NodeID(1), page: NodeID(1) }];
    assert_eq!(open(twice).err(), Some(StoreError::Corrupt));
}

fn parts_of(graph: Webgraph) -> (Meta, Vec<Segment>, Id2NodeDb) {
    graph.into_parts()
}

fn small_graph() -> Webgraph {
    let mut writer = WebgraphWriter::new(Compression::default(), None);
    writer.insert(Node::from("A"), Node::from("B"), "ab".to_string(), RelFlags::default());
    writer.commit_as("first".to_string()).unwrap();
    writer.insert(Node::from("B"), Node::from("C"), "bc".to_string(), RelFlags::default());
    writer.commit_as("second".to_string()).unwrap();
    writer.finalize().unwrap()
}

#[test]
fn a_graph_opens_from_its_parts() {
    let (meta, segments, nodes) = parts_of(small_graph());
    assert_eq!(meta.comitted_segments, vec!["first".to_string(), "second".to_string()]);
    let graph = Webgraph::open(meta, segments, nodes).unwrap();
    assert_eq!(graph.num_segments(), 2);
    assert_eq!(graph.meta().comitted_segments.len(), 2);
    assert_eq!(graph.segments().len(), 2);
    assert_eq!(graph.id2node_db().estimate_num_keys(), 3);
    let out = graph.raw_outgoing_edges_with_labels(&Node::from("A").id(), EdgeLimit::Unlimited);
    assert_eq!(out.len(), 1);
    assert_eq!(out[0].from, Node::from("A").id());
    assert_eq!(out[0].to, Node::from("B").id());
    assert_eq!(out[0].label, "ab");
    let into = graph.raw_ingoing_edges_with_labels(&Node::from("C").id(), EdgeLimit::Unlimited);
    assert_eq!(into.len(), 1);
    assert_eq!(into[0].from, Node::from("B").id());
    assert_eq!(into[0].to, Node::from("C").id());
    assert_eq!(into[0].label, "bc");
    let full = graph.ingoing_edges(Node::from("C"), EdgeLimit::Unlimited);
    assert_eq!(full.len(), 1);
    assert_eq!(full[0].from.as_str(), "b");
    assert_eq!(full[0].to.as_str(), "c");
}

#[test]
fn a_graph_does_not_open_from_parts_that_disagree() {
    let (mut meta, segments, nodes) = parts_of(small_graph());
    meta.comitted_segments.pop();
    assert_eq!(Webgraph::open(meta, segments, nodes).err(), Some(GraphError::SegmentMismatch));

    let (mut meta, segments, nodes) = parts_of(small_graph());
    meta.comitted_segments.swap(0, 1);
    assert_eq!(Webgraph::open(meta, segments, nodes).err(), Some(GraphError::SegmentMismatch));

    let (meta, _, nodes) = parts_of(small_graph());
    let (_, mut segments, _) = parts_of(small_graph());
    let (_, mut again, _) = parts_of(small_graph());
    segments.pop();
    segments.push(again.remove(0));
    let twice = Meta { comitted_segments: vec!["first".to_string(), "first".to_string()] };
    assert_eq!(meta.comitted_segments.len(), 2);
    assert_eq!(Webgraph::open(twice, segments, nodes).err(), Some(GraphError::DuplicateSegment));

    let (meta, segments, _) = parts_of(small_graph());
    assert_eq!(Webgraph::open(meta, segments, Id2NodeDb::new()).err(), Some(GraphError::UnknownNode));

    let (meta, segments, _) = parts_of(small_graph());
    let mut wrong = Id2NodeDb::new();
    for name in ["A", "B"] {
        wrong.put(Node::from(name).id(), Node::from(name));
    }
    wrong.put(Node::from("C").id(), Node::from("not c"));
    assert_eq!(Webgraph::open(meta, segments, wrong).err(), Some(GraphError::UnknownNode));
}

#[test]
fn a_writer_refuses_a_segment_id_twice_and_keeps_its_edges() {
    let mut writer = WebgraphWriter::new(Compression::default(), None);
    writer.insert(Node::from("A"), Node::from("B"), String::new(), RelFlags::default());
    writer.commit_as("one".to_string()).unwrap();
    // nothing waits: nothing is committed, whatever the id
    writer.commit_as("one".to_string()).unwrap();
    writer.insert(Node::from("A"), Node::from("C"), String::new(), RelFlags::default());
    assert_eq!(writer.commit_as("one".to_string()), Err(GraphError::DuplicateSegment));
    writer.commit_as("two".to_string()).unwrap();
    let graph = writer.finalize().unwrap();
    assert_eq!(graph.num_segments(), 2);
    assert_eq!(graph.raw_outgoing_edges(&Node::from("A").id(), EdgeLimit::Unlimited).len(), 2);
}

#[test]
fn the_union_of_graphs_without_a_common_node_holds_the_edges_of_both() {
    let mut first = WebgraphWriter::new(Compression::default(), None);
    first.insert(Node::from("A"), Node::from("B"), "ab".to_string(), RelFlags::default());
    let mut graph = first.finalize().unwrap();
    let mut second = WebgraphWriter::new(Compression::default(), None);
    second.insert(Node::from("C"), Node::from("D"), "cd".to_string(), RelFlags::default());
    let other = second.finalize().unwrap();
    let before: Vec<_> = ["A", "B"]
        .iter()
        .map(|n| graph.raw_outgoing_edges_with_labels(&Node::from(*n).id(), EdgeLimit::Unlimited).len())
        .collect();
    assert_eq!(before, vec![1, 0]);
    graph.merge(other).unwrap();
    let label = |graph: &Webgraph, node: &str| -> Vec<String> {
        graph
            .raw_outgoing_edges_with_labels(&Node::from(node).id(), EdgeLimit::Unlimited)
            .into_iter()
            .map(|e| e.label)
            .collect()
    };
    assert_eq!(label(&graph, "A"), vec!["ab".to_string()]);
    assert_eq!(label(&graph, "C"), vec!["cd".to_string()]);
    assert_eq!(label(&graph, "B"), Vec::<String>::new());
    assert_eq!(label(&graph, "D"), Vec::<String>::new());
    assert_eq!(graph.edges().len(), 2);
    assert_eq!(graph.nodes().len(), 4);
}

#[test]
fn crawl_files_are_batched() {
    let paths = |n: usize| -> Vec<String> { (0..n).map(|i| format!("file-{i}")).collect() };
    assert_eq!(batches(vec![1, 2, 3, 4, 5], 2), vec![vec![1, 2], vec![3, 4], vec![5]]);
    assert_eq!(batches(vec![1, 2, 3, 4], 2), vec![vec![1, 2], vec![3, 4]]);
    assert_eq!(batches(vec![1, 2], 5), vec![vec![1, 2]]);
    assert_eq!(batches(Vec::<u8>::new(), 3), Vec::<Vec<u8>>::new());
    // a local run limits the files, a distributed run limits the batches
    assert_eq!(
        local_batches(paths(5), Some(3), Some(2)),
        vec![vec!["file-0".to_string(), "file-1".to_string()], vec!["file-2".to_string()]]
    );
    assert_eq!(local_batches(paths(3), None, None).len(), 3);
    assert_eq!(local_batches(paths(3), Some(9), Some(9)).len(), 1);
    assert_eq!(
        master_batches(paths(5), Some(2), Some(1)),
        vec![vec!["file-0".to_string(), "file-1".to_string()]]
    );
    assert_eq!(master_batches(paths(5), Some(2), None).len(), 3);
    assert_eq!(master_batches(paths(5), None, Some(9)).len(), 5);
}

#[test]
fn links_within_a_domain_and_links_off_the_web_are_left_out() {
    assert!(crosses_domains("http", "a.example", "b.example"));
    assert!(crosses_domains("https", "a.example", "b.example"));
    assert!(!crosses_domains("https", "a.example", "a.example"));
    assert!(!crosses_domains("ftp", "a.example", "b.example"));
    assert!(!crosses_domains("http2", "a.example", "b.example"));
    assert!(!crosses_domains("", "a.example", "b.example"));
}

#[test]
fn samples_of_the_sources_come_in_changing_order() {
    let mut writer = WebgraphWriter::new(Compression::default(), None);
    for i in 0..24 {
        writer.insert(
            Node::from(format!("source-{i}.example")),
            Node::from("target.example"),
            String::new(),
            RelFlags::default(),
        );
    }
    let graph = writer.finalize().unwrap();
    let first = graph.random_nodes_with_outgoing(24);
    assert_eq!(first.len(), 24);
    let mut sorted = first.clone();
    sorted.sort();
    sorted.dedup();
    assert_eq!(sorted.len(), 24);
    let changed = (0..32).any(|_| graph.random_nodes_with_outgoing(24) != first);
    assert!(changed);
    let few = graph.random_nodes_with_outgoing(3);
    assert_eq!(few.len(), 3);
    assert!(few.iter().all(|id| first.contains(id)));
}
