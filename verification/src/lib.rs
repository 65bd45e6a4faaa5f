//! Integer-indexed graph and tree primitives: a compact static graph,
//! disjoint-set-union structures, depth-first search, rooted trees,
//! offline lowest-common-ancestor queries, and a mergesort utility.

pub mod adjacency;
pub mod dfs;
pub mod djsu_index;
pub mod djsu_rooted;
pub mod forest;
pub mod graph_indexed;
pub mod lca_offline;
pub mod merge;
pub mod static_graph;
pub mod tree_indexed;
pub mod union_find;

pub use dfs::DFS;
pub use graph_indexed::GraphIndexed;
pub use static_graph::StaticGraph;
pub use lca_offline::LcaOffline;
pub use tree_indexed::TreeIndexed;

pub use djsu_index::DjsuIndex;
pub use djsu_rooted::DjsuRooted;
pub use union_find::UnionFind;

pub use merge::merge;
pub use merge::merge_intervals;
pub use merge::mergesort;
