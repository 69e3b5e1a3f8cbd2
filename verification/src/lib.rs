//! A segmented store for the hyperlink graph of a web corpus.
//!
//! Nodes are pages or hosts, known by a canonical name and by its 64-bit
//! fingerprint ([`node`]). Edges carry a label and a set of `rel` flags
//! ([`edge`]). A graph ([`graph`]) is a list of immutable segments
//! ([`segment`]) and a map from node ids to nodes ([`id2node`]). A writer
//! ([`writer`]) collects edges and commits them as a new segment
//! ([`builder`]); graphs are united and their segments compacted into one
//! ([`admin`], [`compact`]). A query for the edges at a node gathers the
//! adjacency lists of all segments and selects one edge per neighbour, in the
//! order of the neighbours' sort keys ([`query`], [`resolve`]).
//!
//! Compaction and the queries rest on a binary heap ([`heap`]), a k-way merge
//! ([`kway`], [`merge`], [`fuse`], [`fusion`]) and a sort ([`sort`]). What holds of every
//! graph and of every node name is proved in [`laws`] and [`canon`]; that the
//! two indices of a segment hold the same edges, and what keeps them so, in
//! [`mirror`].
//!
//! Adjacency lists are merged by the sort keys of the neighbours: where
//! segments are compacted, the edges of one sort key at a node become one
//! edge. A writer gives a node the rank of its host as the sort key, and its
//! own id where the host has no rank.
//!
//! Everything here is in memory. Reading and writing graph directories is
//! left to the caller, who takes a graph apart with `into_parts` and puts it
//! together with the `open` functions, which refuse parts that do not fit.

pub mod admin;
pub mod builder;
pub mod canon;
pub mod compact;
pub mod edge;
pub mod fuse;
pub mod fusion;
pub mod graph;
pub mod heap;
pub mod id2node;
pub mod ingest;
pub mod kway;
pub mod laws;
pub mod merge;
pub mod mirror;
pub mod node;
pub mod order;
pub mod outside;
pub mod query;
pub mod ranks;
pub mod resolve;
pub mod segment;
pub mod sort;
pub mod suggest;
mod text;
pub mod writer;
